//! Line-by-line comparison of two texts: a unified patch and counted
//! insertions, deletions and unchanged lines.

use vstd::prelude::*;
use vstd::string::StringExecFns;

use crate::text::{split_on, str_to_chars};
use crate::wrappers::{diff_ops_of, text_diff_ops, text_unified_diff, unified_diff_of};

verus! {

/// A comparison request.
#[derive(Debug)]
pub struct TextDiffRequest {
    pub left: String,
    pub right: String,
    pub left_name: Option<String>,
    pub right_name: Option<String>,
    pub context: Option<usize>,
}

/// The line counts of a comparison.
#[derive(Debug)]
pub struct TextDiffSummary {
    pub left_lines: usize,
    pub right_lines: usize,
    pub insertions: usize,
    pub deletions: usize,
    pub equal: usize,
}

/// The patch and its summary.
#[derive(Debug)]
pub struct TextDiffResponse {
    pub patch: String,
    pub summary: TextDiffSummary,
}

/// How many lines a text has, as the standard line iterator counts them:
/// newline-separated, with no final empty line after a trailing newline.
pub open spec fn spec_line_count(s: Seq<char>) -> int {
    let parts = split_on(s, '\n');
    if parts.last().len() == 0 {
        parts.len() - 1
    } else {
        parts.len() as int
    }
}

/// Counts the lines of a text.
pub fn count_lines(v: &Vec<char>) -> (r: usize)
    ensures
        r == spec_line_count(v@),
{
    let parts = crate::text::split_char(v, '\n');
    proof {
        assert(parts.deep_view().last() == parts@[parts@.len() - 1]@);
    }
    if parts[parts.len() - 1].len() == 0 {
        parts.len() - 1
    } else {
        parts.len()
    }
}

/// The insertion count over the diff operations: inserted lines of insert
/// and replace operations.
pub open spec fn spec_insertions(ops: Seq<(u8, usize, usize)>) -> int
    decreases ops.len(),
{
    if ops.len() == 0 {
        0int
    } else {
        spec_insertions(ops.drop_last()) + if ops.last().0 == 2 || ops.last().0 == 3 {
            ops.last().2 as int
        } else {
            0int
        }
    }
}

/// The deletion count: removed lines of delete and replace operations.
pub open spec fn spec_deletions(ops: Seq<(u8, usize, usize)>) -> int
    decreases ops.len(),
{
    if ops.len() == 0 {
        0int
    } else {
        spec_deletions(ops.drop_last()) + if ops.last().0 == 1 || ops.last().0 == 3 {
            ops.last().1 as int
        } else {
            0int
        }
    }
}

/// The unchanged count: the longer side of each equal operation.
pub open spec fn spec_equal_count(ops: Seq<(u8, usize, usize)>) -> int
    decreases ops.len(),
{
    if ops.len() == 0 {
        0int
    } else {
        spec_equal_count(ops.drop_last()) + if ops.last().0 == 0 {
            if ops.last().1 >= ops.last().2 {
                ops.last().1 as int
            } else {
                ops.last().2 as int
            }
        } else {
            0int
        }
    }
}

/// Compares two texts line by line. The patch is the unified diff under
/// the requested context radius (500 by default) and header names; the
/// summary counts both sides' lines and the changed and unchanged lines
/// over the diff operations.
pub fn generate_text_diff(req: &TextDiffRequest) -> (r: Result<TextDiffResponse, String>)
    ensures
        match r {
            Ok(out) => {
                let ops = diff_ops_of(req.left@, req.right@);
                let context = match req.context {
                    Some(c) => c as int,
                    None => 500,
                };
                let lname = match req.left_name {
                    Some(ref n) => n@,
                    None => "left"@,
                };
                let rname = match req.right_name {
                    Some(ref n) => n@,
                    None => "right"@,
                };
                &&& out.patch@ == unified_diff_of(
                    req.left@,
                    req.right@,
                    context as usize,
                    lname,
                    rname,
                )
                &&& out.summary.left_lines == spec_line_count(req.left@)
                &&& out.summary.right_lines == spec_line_count(req.right@)
                &&& out.summary.insertions == spec_insertions(ops)
                &&& out.summary.deletions == spec_deletions(ops)
                &&& out.summary.equal == spec_equal_count(ops)
            },
            Err(_) => {
                let ops = diff_ops_of(req.left@, req.right@);
                spec_insertions(ops) > usize::MAX || spec_deletions(ops) > usize::MAX
                    || spec_equal_count(ops) > usize::MAX
            },
        },
{
    let context: usize = match req.context {
        Some(c) => c,
        None => 500,
    };
    let ops = text_diff_ops(req.left.as_str(), req.right.as_str());
    let ghost opseq = diff_ops_of(req.left@, req.right@);
    let mut insertions: usize = 0;
    let mut deletions: usize = 0;
    let mut equal: usize = 0;
    let n = ops.len();
    let mut k: usize = 0;
    while k < n
        invariant
            n == ops@.len(),
            ops@ == opseq,
            opseq == diff_ops_of(req.left@, req.right@),
            0 <= k <= n,
            insertions == spec_insertions(opseq.take(k as int)),
            deletions == spec_deletions(opseq.take(k as int)),
            equal == spec_equal_count(opseq.take(k as int)),
        decreases n - k,
    {
        proof {
            assert(opseq.take(k + 1).drop_last() =~= opseq.take(k as int));
            assert(opseq.take(k + 1).last() == opseq[k as int]);
            lemma_counts_monotone(opseq, k + 1);
        }
        let (tag, old_len, new_len) = ops[k];
        if tag == 2 || tag == 3 {
            if insertions > usize::MAX - new_len {
                proof {
                    lemma_counts_grow(opseq, k + 1);
                }
                return Err(String::from_str("diff counters overflowed"));
            }
            insertions = insertions + new_len;
        }
        if tag == 1 || tag == 3 {
            if deletions > usize::MAX - old_len {
                proof {
                    lemma_counts_grow(opseq, k + 1);
                }
                return Err(String::from_str("diff counters overflowed"));
            }
            deletions = deletions + old_len;
        }
        if tag == 0 {
            let bigger: usize = if old_len >= new_len {
                old_len
            } else {
                new_len
            };
            if equal > usize::MAX - bigger {
                proof {
                    lemma_counts_grow(opseq, k + 1);
                }
                return Err(String::from_str("diff counters overflowed"));
            }
            equal = equal + bigger;
        }
        k = k + 1;
    }
    proof {
        assert(opseq.take(n as int) =~= opseq);
    }
    let patch: String = match (&req.left_name, &req.right_name) {
        (Some(l), Some(rn)) => text_unified_diff(
            req.left.as_str(),
            req.right.as_str(),
            context,
            l.as_str(),
            rn.as_str(),
        ),
        (Some(l), None) => text_unified_diff(
            req.left.as_str(),
            req.right.as_str(),
            context,
            l.as_str(),
            "right",
        ),
        (None, Some(rn)) => text_unified_diff(
            req.left.as_str(),
            req.right.as_str(),
            context,
            "left",
            rn.as_str(),
        ),
        (None, None) => text_unified_diff(
            req.left.as_str(),
            req.right.as_str(),
            context,
            "left",
            "right",
        ),
    };
    let lc = str_to_chars(req.left.as_str());
    let rc = str_to_chars(req.right.as_str());
    let left_lines = count_lines(&lc);
    let right_lines = count_lines(&rc);
    Ok(
        TextDiffResponse {
            patch,
            summary: TextDiffSummary { left_lines, right_lines, insertions, deletions, equal },
        },
    )
}

/// The whole count dominates any prefix count.
proof fn lemma_counts_grow(ops: Seq<(u8, usize, usize)>, k: int)
    requires
        0 <= k <= ops.len(),
    ensures
        spec_insertions(ops) >= spec_insertions(ops.take(k)),
        spec_deletions(ops) >= spec_deletions(ops.take(k)),
        spec_equal_count(ops) >= spec_equal_count(ops.take(k)),
{
    lemma_counts_monotone(ops, k);
}

/// Prefix counts never exceed the whole.
proof fn lemma_counts_monotone(ops: Seq<(u8, usize, usize)>, k: int)
    requires
        0 <= k <= ops.len(),
    ensures
        0 <= spec_insertions(ops.take(k)) <= spec_insertions(ops),
        0 <= spec_deletions(ops.take(k)) <= spec_deletions(ops),
        0 <= spec_equal_count(ops.take(k)) <= spec_equal_count(ops),
    decreases ops.len(),
{
    lemma_counts_nonneg(ops.take(k));
    lemma_counts_nonneg(ops);
    if k < ops.len() {
        lemma_counts_monotone(ops.drop_last(), k);
        assert(ops.drop_last().take(k) =~= ops.take(k));
        lemma_counts_nonneg(ops.drop_last());
    } else {
        assert(ops.take(k) =~= ops);
    }
}

proof fn lemma_counts_nonneg(ops: Seq<(u8, usize, usize)>)
    ensures
        spec_insertions(ops) >= 0,
        spec_deletions(ops) >= 0,
        spec_equal_count(ops) >= 0,
    decreases ops.len(),
{
    if ops.len() > 0 {
        lemma_counts_nonneg(ops.drop_last());
    }
}

} // verus!
