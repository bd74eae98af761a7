//! The trusted boundary to outside crates: each wrapper makes one outside
//! call, and its contract names what that call returns.

use vstd::prelude::*;

verus! {

/// What `str::to_lowercase` returns: a function of the characters alone.
pub uninterp spec fn lower_of(s: Seq<char>) -> Seq<char>;

/// Relies on `str::to_lowercase`: the result depends on the characters
/// alone, and an empty string stays empty.
#[verifier::external_body]
pub(crate) fn lowercase(s: &str) -> (r: String)
    ensures
        r@ == lower_of(s@),
        s@.len() == 0 ==> r@.len() == 0,
{
    s.to_lowercase()
}

/// What `str::to_uppercase` returns: a function of the characters alone.
pub uninterp spec fn upper_of(s: Seq<char>) -> Seq<char>;

/// Relies on `str::to_uppercase`: the result depends on the characters
/// alone, and an empty string stays empty.
#[verifier::external_body]
pub(crate) fn uppercase(s: &str) -> (r: String)
    ensures
        r@ == upper_of(s@),
        s@.len() == 0 ==> r@.len() == 0,
{
    s.to_uppercase()
}

/// What the first match of a regular expression captures in a text: group
/// texts by group index, `None` for the whole when nothing matches or the
/// pattern does not compile.
pub uninterp spec fn captures_of(pat: Seq<char>, text: Seq<char>) -> Option<
    Seq<Option<Seq<char>>>,
>;

/// Relies on `regex::Regex::new` and `regex::Regex::captures`: the capture
/// groups of the first match depend only on the pattern and the text.
#[verifier::external_body]
pub(crate) fn regex_captures(pat: &str, text: &str) -> (r: Option<Vec<Option<String>>>)
    ensures
        r.deep_view() == captures_of(pat@, text@),
{
    let re = match regex::Regex::new(pat) {
        Ok(re) => re,
        Err(_) => return None,
    };
    let caps = re.captures(text)?;
    Some(caps.iter().map(|m| m.map(|g| g.as_str().to_string())).collect())
}

/// What every non-overlapping match of a regular expression in a text is,
/// in order; empty when the pattern does not compile.
pub uninterp spec fn find_all_of(pat: Seq<char>, text: Seq<char>) -> Seq<Seq<char>>;

/// Relies on `regex::Regex::new` and `regex::Regex::find_iter`: the list
/// of non-overlapping matches depends only on the pattern and the text.
#[verifier::external_body]
pub(crate) fn regex_find_all(pat: &str, text: &str) -> (r: Vec<String>)
    ensures
        r.deep_view() == find_all_of(pat@, text@),
{
    let re = match regex::Regex::new(pat) {
        Ok(re) => re,
        Err(_) => return Vec::new(),
    };
    re.find_iter(text).map(|m| m.as_str().to_string()).collect()
}

/// What the first capture group of every match is, in order; empty when
/// the pattern does not compile.
pub uninterp spec fn cap1_all_of(pat: Seq<char>, text: Seq<char>) -> Seq<Option<Seq<char>>>;

/// Relies on `regex::Regex::new` and `regex::Regex::captures_iter`: group
/// one of each match depends only on the pattern and the text.
#[verifier::external_body]
pub(crate) fn regex_cap1_all(pat: &str, text: &str) -> (r: Vec<Option<String>>)
    ensures
        r.deep_view() == cap1_all_of(pat@, text@),
{
    let re = match regex::Regex::new(pat) {
        Ok(re) => re,
        Err(_) => return Vec::new(),
    };
    re.captures_iter(text).map(|c| c.get(1).map(|g| g.as_str().to_string())).collect()
}

/// What comparing two texts line by line yields: for each diff operation
/// its tag (0 equal, 1 delete, 2 insert, 3 replace), the length of its old
/// range and the length of its new range.
pub uninterp spec fn diff_ops_of(left: Seq<char>, right: Seq<char>) -> Seq<(u8, usize, usize)>;

/// Relies on `similar::TextDiff::from_lines` and `DiffOp` accessors: the
/// operation list depends only on the two texts.
#[verifier::external_body]
pub(crate) fn text_diff_ops(left: &str, right: &str) -> (r: Vec<(u8, usize, usize)>)
    ensures
        r@ == diff_ops_of(left@, right@),
{
    let diff = similar::TextDiff::from_lines(left, right);
    diff.ops().iter().map(|op| {
        let tag: u8 = match op.tag() {
            similar::DiffTag::Equal => 0,
            similar::DiffTag::Delete => 1,
            similar::DiffTag::Insert => 2,
            similar::DiffTag::Replace => 3,
        };
        (tag, op.old_range().len(), op.new_range().len())
    }).collect()
}

/// What the unified-diff text of two texts is, under the given context
/// radius and header names.
pub uninterp spec fn unified_diff_of(
    left: Seq<char>,
    right: Seq<char>,
    context: usize,
    left_name: Seq<char>,
    right_name: Seq<char>,
) -> Seq<char>;

/// Relies on `similar::TextDiff::unified_diff`: the rendered patch depends
/// only on the texts, the context radius and the header names.
#[verifier::external_body]
pub(crate) fn text_unified_diff(
    left: &str,
    right: &str,
    context: usize,
    left_name: &str,
    right_name: &str,
) -> (r: String)
    ensures
        r@ == unified_diff_of(left@, right@, context, left_name@, right_name@),
{
    let diff = similar::TextDiff::from_lines(left, right);
    diff.unified_diff().context_radius(context).header(left_name, right_name).to_string()
}

} // verus!
