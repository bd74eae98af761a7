//! Inclusive IPv4 address ranges and their merging into the canonical
//! coverage: ordered, non-overlapping, non-adjacent.

use vstd::prelude::*;

verus! {

/// An inclusive interval of IPv4 addresses.
#[derive(Clone, Copy, Debug, PartialEq, Eq, Structural)]
pub struct IpRange {
    pub start: u32,
    pub end: u32,
}

/// A well-formed range does not end before it starts.
pub open spec fn wf_range(r: IpRange) -> bool {
    r.start <= r.end
}

pub open spec fn all_wf(s: Seq<IpRange>) -> bool {
    forall|i: int| 0 <= i < s.len() ==> wf_range(#[trigger] s[i])
}

/// Ranges ordered by start address.
pub open spec fn ranges_sorted(s: Seq<IpRange>) -> bool {
    forall|i: int, j: int| 0 <= i < j < s.len() ==> s[i].start <= s[j].start
}

/// Whether an address lies inside some range of the sequence.
pub open spec fn covers(s: Seq<IpRange>, x: u32) -> bool {
    exists|i: int| #![trigger s[i]] 0 <= i < s.len() && s[i].start <= x <= s[i].end
}

/// The canonical merged coverage: well-formed ranges, and each range starts
/// more than one past the end of its predecessor.
pub open spec fn canonical(s: Seq<IpRange>) -> bool {
    &&& all_wf(s)
    &&& forall|i: int| 0 <= i < s.len() - 1 ==> #[trigger] s[i + 1].start > s[i].end + 1
}

/// In a canonical sequence every later range starts beyond every earlier
/// range's end.
pub proof fn lemma_canonical_ordered(s: Seq<IpRange>)
    requires
        canonical(s),
    ensures
        forall|i: int, j: int| 0 <= i < j < s.len() ==> s[j].start > s[i].end + 1,
        ranges_sorted(s),
    decreases s.len(),
{
    if s.len() > 1 {
        let t = s.skip(1);
        assert(canonical(t)) by {
            assert forall|i: int| 0 <= i < t.len() - 1 implies #[trigger] t[i + 1].start > t[i].end
                + 1 by {
                assert(t[i + 1] == s[i + 2]);
                assert(t[i] == s[i + 1]);
                assert(s[i + 1 + 1].start > s[i + 1].end + 1);
            }
        }
        lemma_canonical_ordered(t);
        assert forall|i: int, j: int| 0 <= i < j < s.len() implies s[j].start > s[i].end + 1 by {
            if i == 0 {
                if j == 1 {
                    assert(s[0int + 1].start > s[0int].end + 1);
                } else {
                    assert(t[j - 2 + 1].start > t[j - 2].end + 1);
                    assert(s[0int + 1].start > s[0int].end + 1);
                    lemma_canonical_chain(t, 0, j - 1);
                    assert(wf_range(t[0]));
                }
            } else {
                assert(t[j - 1].start > t[i - 1].end + 1);
            }
        }
        assert forall|i: int, j: int| 0 <= i < j < s.len() implies s[i].start <= s[j].start by {
            assert(s[j].start > s[i].end + 1);
            assert(wf_range(s[i]));
        }
    }
}

/// Chained form of the canonical gap: range `j` starts beyond range `i`.
proof fn lemma_canonical_chain(s: Seq<IpRange>, i: int, j: int)
    requires
        canonical(s),
        0 <= i < j < s.len(),
    ensures
        s[j].start > s[i].end + 1,
    decreases j - i,
{
    if j == i + 1 {
        assert(s[i + 1].start > s[i].end + 1);
    } else {
        lemma_canonical_chain(s, i, j - 1);
        assert(s[j - 1 + 1].start > s[j - 1].end + 1);
        assert(wf_range(s[j - 1]));
    }
}

/// Sorts ranges by start address, preserving the multiset of ranges.
pub fn sort_ranges(v: Vec<IpRange>) -> (r: Vec<IpRange>)
    ensures
        ranges_sorted(r@),
        r@.to_multiset() == v@.to_multiset(),
        r@.len() == v@.len(),
{
    broadcast use vstd::seq_lib::group_to_multiset_ensures;

    let mut out: Vec<IpRange> = Vec::new();
    let n = v.len();
    let mut k: usize = 0;
    while k < n
        invariant
            n == v@.len(),
            0 <= k <= n,
            ranges_sorted(out@),
            out@.to_multiset() == v@.take(k as int).to_multiset(),
            out@.len() == k,
        decreases n - k,
    {
        let x = v[k];
        let mut pos: usize = out.len();
        while pos > 0 && out[pos - 1].start > x.start
            invariant
                0 <= pos <= out@.len(),
                forall|j: int| pos <= j < out@.len() ==> out@[j].start > x.start,
            decreases pos,
        {
            pos = pos - 1;
        }
        let ghost old_out = out@;
        out.insert(pos, x);
        proof {
            broadcast use vstd::seq_lib::group_to_multiset_ensures;

            assert(out@ == old_out.insert(pos as int, x));
            assert forall|i: int, j: int| 0 <= i < j < out@.len() implies out@[i].start
                <= out@[j].start by {
                if i < pos && j == pos {
                    assert(out@[i] == old_out[i]);
                    assert(out@[j] == x);
                    assert(old_out[pos - 1].start <= x.start || pos == 0);
                    if pos > 0 {
                        assert(old_out[i].start <= old_out[pos - 1].start);
                    }
                } else if i == pos && j > pos {
                    assert(out@[j] == old_out[j - 1]);
                } else if i < pos && j > pos {
                    assert(out@[i] == old_out[i] && out@[j] == old_out[j - 1]);
                } else if i < j < pos {
                    assert(out@[i] == old_out[i] && out@[j] == old_out[j]);
                } else if pos < i < j {
                    assert(out@[i] == old_out[i - 1] && out@[j] == old_out[j - 1]);
                }
            }
            vstd::seq_lib::to_multiset_insert(old_out, pos as int, x);
            assert(v@.take(k + 1) =~= v@.take(k as int).push(x));
            assert(v@.take(k as int).push(x).to_multiset() =~= v@.take(
                k as int,
            ).to_multiset().insert(x));
            assert(out@.to_multiset() == v@.take(k + 1).to_multiset());
        }
        k = k + 1;
    }
    proof {
        assert(v@.take(n as int) =~= v@);
    }
    out
}

/// A sequence covers an address exactly when an equal multiset does.
pub proof fn lemma_covers_multiset(a: Seq<IpRange>, b: Seq<IpRange>, x: u32)
    requires
        a.to_multiset() == b.to_multiset(),
    ensures
        covers(a, x) == covers(b, x),
{
    broadcast use vstd::seq_lib::group_to_multiset_ensures;

    if covers(a, x) {
        let i = choose|i: int| #![trigger a[i]] 0 <= i < a.len() && a[i].start <= x <= a[i].end;
        assert(a.contains(a[i]));
        assert(a.to_multiset().contains(a[i]));
        assert(b.to_multiset().contains(a[i]));
        assert(b.contains(a[i]));
        let j = choose|j: int| #![trigger b[j]] 0 <= j < b.len() && b[j] == a[i];
        assert(covers(b, x));
    }
    if covers(b, x) {
        let i = choose|i: int| #![trigger b[i]] 0 <= i < b.len() && b[i].start <= x <= b[i].end;
        assert(b.contains(b[i]));
        assert(b.to_multiset().contains(b[i]));
        assert(a.to_multiset().contains(b[i]));
        assert(a.contains(b[i]));
        let j = choose|j: int| #![trigger a[j]] 0 <= j < a.len() && a[j] == b[i];
        assert(covers(a, x));
    }
}

/// Merges sorted, well-formed ranges into the canonical coverage: the
/// result is canonical and covers exactly the same addresses; and a
/// coverage that is already canonical comes back unchanged.
pub fn merge_ranges(ranges: Vec<IpRange>) -> (r: Vec<IpRange>)
    requires
        ranges_sorted(ranges@),
        all_wf(ranges@),
    ensures
        canonical(r@),
        forall|x: u32| covers(r@, x) == covers(ranges@, x),
        ranges@.len() == 0 ==> r@.len() == 0,
        ranges@.len() > 0 ==> r@.len() > 0,
        canonical(ranges@) ==> r@ == ranges@,
{
    let n = ranges.len();
    if n == 0 {
        let r: Vec<IpRange> = Vec::new();
        return r;
    }
    let mut merged: Vec<IpRange> = Vec::new();
    let mut current: IpRange = ranges[0];
    proof {
        assert(merged@.push(current) =~= ranges@.take(1));
        assert(wf_range(ranges@[0]));
    }
    let mut k: usize = 1;
    while k < n
        invariant
            n == ranges@.len(),
            1 <= k <= n,
            ranges_sorted(ranges@),
            all_wf(ranges@),
            wf_range(current),
            canonical(merged@.push(current)),
            forall|x: u32| covers(merged@.push(current), x) == covers(ranges@.take(k as int), x),
            forall|j: int| k <= j < n ==> current.start <= ranges@[j].start,
            current.end >= ranges@[(k - 1) as int].start,
        decreases n - k,
    {
        let nxt = ranges[k];
        let ghost before = merged@.push(current);
        if nxt.start <= u32_sat_add(current.end, 1) {
            let new_end = if current.end >= nxt.end {
                current.end
            } else {
                nxt.end
            };
            let updated = IpRange { start: current.start, end: new_end };
            proof {
                let after = merged@.push(updated);
                assert forall|x: u32| covers(after, x) == covers(ranges@.take(k + 1), x) by {
                    lemma_covers_push(merged@, updated, x);
                    lemma_covers_push(merged@, current, x);
                    lemma_covers_take_push(ranges@, k as int, x);
                    assert(nxt.start <= current.end + 1 || current.end == u32::MAX);
                }
                assert(canonical(after)) by {
                    lemma_canonical_push_grow(merged@, current, updated);
                }
            }
            current = updated;
        } else {
            proof {
                let after = merged@.push(current).push(nxt);
                assert(canonical(after)) by {
                    lemma_canonical_push_next(merged@, current, nxt);
                }
                assert forall|x: u32| covers(after, x) == covers(ranges@.take(k + 1), x) by {
                    lemma_covers_push(merged@.push(current), nxt, x);
                    lemma_covers_take_push(ranges@, k as int, x);
                }
            }
            merged.push(current);
            current = nxt;
        }
        k = k + 1;
    }
    proof {
        assert(ranges@.take(n as int) =~= ranges@);
    }
    merged.push(current);
    proof {
        if canonical(ranges@) {
            lemma_canonical_unique(merged@, ranges@);
            assert(merged@ =~= ranges@);
        }
    }
    merged
}

/// Saturating increment, used to test adjacency without overflow.
pub fn u32_sat_add(a: u32, b: u32) -> (r: u32)
    ensures
        r == if a + b > u32::MAX {
            u32::MAX as int
        } else {
            a + b
        },
{
    a.saturating_add(b)
}

/// Pushing a range extends coverage by exactly that interval.
proof fn lemma_covers_push(s: Seq<IpRange>, r: IpRange, x: u32)
    ensures
        covers(s.push(r), x) == (covers(s, x) || (r.start <= x <= r.end)),
{
    let t = s.push(r);
    if covers(s, x) {
        let i = choose|i: int| #![trigger s[i]] 0 <= i < s.len() && s[i].start <= x <= s[i].end;
        assert(t[i] == s[i]);
        assert(covers(t, x));
    }
    if r.start <= x <= r.end {
        assert(t[s.len() as int] == r);
        assert(covers(t, x));
    }
    if covers(t, x) {
        let i = choose|i: int| #![trigger t[i]] 0 <= i < t.len() && t[i].start <= x <= t[i].end;
        if i < s.len() {
            assert(s[i] == t[i]);
            assert(covers(s, x));
        } else {
            assert(t[i] == r);
        }
    }
}

/// Coverage of one more input range, through `take`.
proof fn lemma_covers_take_push(s: Seq<IpRange>, k: int, x: u32)
    requires
        0 <= k < s.len(),
    ensures
        covers(s.take(k + 1), x) == (covers(s.take(k), x) || (s[k].start <= x <= s[k].end)),
{
    assert(s.take(k + 1) =~= s.take(k).push(s[k]));
    lemma_covers_push(s.take(k), s[k], x);
}

/// Growing the open range's end keeps the pushed sequence canonical.
proof fn lemma_canonical_push_grow(s: Seq<IpRange>, cur: IpRange, upd: IpRange)
    requires
        canonical(s.push(cur)),
        upd.start == cur.start,
        upd.end >= cur.end,
        wf_range(upd),
    ensures
        canonical(s.push(upd)),
{
    let a = s.push(cur);
    let b = s.push(upd);
    assert forall|i: int| 0 <= i < b.len() implies wf_range(#[trigger] b[i]) by {
        if i < s.len() {
            assert(b[i] == a[i]);
            assert(wf_range(a[i]));
        }
    }
    assert forall|i: int| 0 <= i < b.len() - 1 implies #[trigger] b[i + 1].start > b[i].end + 1 by {
        assert(a[i + 1].start > a[i].end + 1);
        if i + 1 < s.len() {
            assert(b[i + 1] == a[i + 1] && b[i] == a[i]);
        } else {
            assert(b[i] == a[i]);
            assert(b[i + 1].start == a[i + 1].start);
        }
    }
}

/// Closing the open range and opening a later one keeps canonicity.
proof fn lemma_canonical_push_next(s: Seq<IpRange>, cur: IpRange, nxt: IpRange)
    requires
        canonical(s.push(cur)),
        nxt.start > cur.end + 1,
        wf_range(nxt),
    ensures
        canonical(s.push(cur).push(nxt)),
{
    let a = s.push(cur);
    let b = a.push(nxt);
    assert forall|i: int| 0 <= i < b.len() implies wf_range(#[trigger] b[i]) by {
        if i < a.len() {
            assert(b[i] == a[i]);
            assert(wf_range(a[i]));
        }
    }
    assert forall|i: int| 0 <= i < b.len() - 1 implies #[trigger] b[i + 1].start > b[i].end + 1 by {
        if i + 1 < a.len() {
            assert(b[i + 1] == a[i + 1] && b[i] == a[i]);
            assert(a[i + 1].start > a[i].end + 1);
        } else {
            assert(b[i] == cur && b[i + 1] == nxt);
        }
    }
}

/// The canonical coverage of a set of addresses is unique: two canonical
/// sequences covering the same addresses are equal. Re-merging a merged
/// coverage therefore reproduces it exactly.
pub proof fn lemma_canonical_unique(s1: Seq<IpRange>, s2: Seq<IpRange>)
    requires
        canonical(s1),
        canonical(s2),
        forall|x: u32| covers(s1, x) == covers(s2, x),
    ensures
        s1 =~= s2,
    decreases s1.len(),
{
    lemma_canonical_ordered(s1);
    lemma_canonical_ordered(s2);
    if s1.len() == 0 {
        if s2.len() > 0 {
            assert(covers(s2, s2[0].start));
            assert(!covers(s1, s2[0].start));
        }
    } else if s2.len() == 0 {
        assert(covers(s1, s1[0].start));
        assert(!covers(s2, s1[0].start));
    } else {
        let a = s1[0];
        let b = s2[0];
        assert(covers(s1, a.start));
        assert(covers(s2, a.start));
        assert(covers(s2, b.start));
        assert(covers(s1, b.start));
        // The first starts agree: each is the least covered address.
        assert(a.start == b.start) by {
            let i = choose|i: int| #![trigger s2[i]] 0 <= i < s2.len() && s2[i].start <= a.start <= s2[i].end;
            if i > 0 {
                assert(s2[i].start > s2[0].end + 1);
            }
            let j = choose|j: int| #![trigger s1[j]] 0 <= j < s1.len() && s1[j].start <= b.start <= s1[j].end;
            if j > 0 {
                assert(s1[j].start > s1[0].end + 1);
            }
            assert(b.start <= a.start || s2[i].start <= a.start);
        };
        // The first ends agree: one past the end is uncovered.
        assert(a.end == b.end) by {
            if a.end < b.end {
                let y = (a.end + 1) as u32;
                assert(b.start <= y <= b.end);
                assert(covers(s2, y));
                assert(covers(s1, y));
                let i = choose|i: int| #![trigger s1[i]] 0 <= i < s1.len() && s1[i].start <= y <= s1[i].end;
                if i > 0 {
                    lemma_canonical_chain(s1, 0, i);
                }
            } else if b.end < a.end {
                let y = (b.end + 1) as u32;
                assert(a.start <= y <= a.end);
                assert(covers(s1, y));
                assert(covers(s2, y));
                let i = choose|i: int| #![trigger s2[i]] 0 <= i < s2.len() && s2[i].start <= y <= s2[i].end;
                if i > 0 {
                    lemma_canonical_chain(s2, 0, i);
                }
            }
        };
        let t1 = s1.skip(1);
        let t2 = s2.skip(1);
        assert(canonical(t1)) by {
            lemma_canonical_skip(s1);
        }
        assert(canonical(t2)) by {
            lemma_canonical_skip(s2);
        }
        assert forall|x: u32| covers(t1, x) == covers(t2, x) by {
            lemma_covers_skip(s1, x);
            lemma_covers_skip(s2, x);
            if covers(t1, x) {
                assert(0 <= 0 < t1.len() && t1[0].start <= t1[0].start <= t1[0].end);
                let i = choose|i: int| #![trigger t1[i]] 0 <= i < t1.len() && t1[i].start <= x <= t1[i].end;
                assert(t1[i] == s1[i + 1]);
                lemma_canonical_chain(s1, 0, i + 1);
                assert(x > a.end);
                assert(covers(s1, x));
                assert(covers(s2, x));
                let j = choose|j: int| #![trigger s2[j]] 0 <= j < s2.len() && s2[j].start <= x <= s2[j].end;
                assert(j > 0) by {
                    assert(b.end == a.end);
                }
                assert(t2[j - 1] == s2[j]);
                assert(covers(t2, x));
            }
            if covers(t2, x) {
                let i = choose|i: int| #![trigger t2[i]] 0 <= i < t2.len() && t2[i].start <= x <= t2[i].end;
                assert(t2[i] == s2[i + 1]);
                lemma_canonical_chain(s2, 0, i + 1);
                assert(x > b.end);
                assert(covers(s2, x));
                assert(covers(s1, x));
                let j = choose|j: int| #![trigger s1[j]] 0 <= j < s1.len() && s1[j].start <= x <= s1[j].end;
                assert(j > 0) by {
                    assert(a.end == b.end);
                }
                assert(t1[j - 1] == s1[j]);
                assert(covers(t1, x));
            }
        }
        lemma_canonical_unique(t1, t2);
        assert(s1 =~= s2) by {
            assert(s1[0] == s2[0]) by {
                assert(a.start == b.start && a.end == b.end);
            }
            assert forall|i: int| 0 <= i < s1.len() implies s1[i] == s2[i] by {
                if i > 0 {
                    assert(t1[i - 1] == t2[i - 1]);
                }
            }
        }
    }
}

/// Dropping the first range keeps the rest canonical.
pub proof fn lemma_canonical_skip(s: Seq<IpRange>)
    requires
        canonical(s),
        s.len() >= 1,
    ensures
        canonical(s.skip(1)),
{
    let t = s.skip(1);
    assert forall|i: int| 0 <= i < t.len() implies wf_range(#[trigger] t[i]) by {
        assert(t[i] == s[i + 1]);
        assert(wf_range(s[i + 1]));
    }
    assert forall|i: int| 0 <= i < t.len() - 1 implies #[trigger] t[i + 1].start > t[i].end + 1 by {
        assert(t[i + 1] == s[i + 2] && t[i] == s[i + 1]);
        assert(s[i + 1 + 1].start > s[i + 1].end + 1);
    }
}

/// Coverage splits into the first range and the rest.
proof fn lemma_covers_skip(s: Seq<IpRange>, x: u32)
    requires
        s.len() >= 1,
    ensures
        covers(s, x) == ((s[0].start <= x <= s[0].end) || covers(s.skip(1), x)),
{
    let t = s.skip(1);
    if covers(s, x) {
        let i = choose|i: int| #![trigger s[i]] 0 <= i < s.len() && s[i].start <= x <= s[i].end;
        if i > 0 {
            assert(t[i - 1] == s[i]);
            assert(covers(t, x));
        }
    }
    if covers(t, x) {
        let i = choose|i: int| #![trigger t[i]] 0 <= i < t.len() && t[i].start <= x <= t[i].end;
        assert(s[i + 1] == t[i]);
        assert(covers(s, x));
    }
    if s[0].start <= x <= s[0].end {
        assert(covers(s, x));
    }
}

} // verus!
