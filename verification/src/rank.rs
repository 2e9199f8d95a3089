//! Ordering of listed rows: by `group` descending, then `time` descending,
//! then `id` ascending (the order in which SQLite scans a table by rowid).
use vstd::prelude::*;

verus! {

/// Where a row goes in a listing; `at` is the row's position in its table.
#[derive(Clone, Copy)]
pub struct Rank {
    pub group: i64,
    pub time: i64,
    pub id: i64,
    pub at: usize,
}

/// `a` is listed before `b`.
pub open spec fn before(a: Rank, b: Rank) -> bool {
    a.group > b.group || (a.group == b.group && (a.time > b.time || (a.time == b.time && a.id
        < b.id)))
}

/// Each rank of `s` is listed before the ones after it.
pub open spec fn ranked(s: Seq<Rank>) -> bool {
    forall|i: int, j: int| 0 <= i < j < s.len() ==> before(#[trigger] s[i], #[trigger] s[j])
}

/// No two ranks of `s` share an id.
pub open spec fn distinct_ids(s: Seq<Rank>) -> bool {
    forall|i: int, j: int| 0 <= i < j < s.len() ==> (#[trigger] s[i]).id != (#[trigger] s[j]).id
}

pub fn rank_before(a: &Rank, b: &Rank) -> (r: bool)
    ensures
        r == before(*a, *b),
{
    a.group > b.group || (a.group == b.group && (a.time > b.time || (a.time == b.time && a.id
        < b.id)))
}

/// Inserts `r` where it belongs in the ranked `v`.
pub fn insert_ranked(v: &mut Vec<Rank>, r: Rank)
    requires
        ranked(old(v)@),
        forall|i: int| 0 <= i < old(v)@.len() ==> (#[trigger] old(v)@[i]).id != r.id,
    ensures
        ranked(final(v)@),
        final(v)@.len() == old(v)@.len() + 1,
        forall|x: Rank| final(v)@.contains(x) <==> (old(v)@.contains(x) || x == r),
{
    let n = v.len();
    let mut pos: usize = 0;
    while pos < n && !rank_before(&r, &v[pos])
        invariant
            n == v@.len(),
            pos <= n,
            forall|k: int| 0 <= k < pos ==> before(#[trigger] v@[k], r),
            forall|i: int| 0 <= i < v@.len() ==> (#[trigger] v@[i]).id != r.id,
        decreases n - pos,
    {
        assert(v@[pos as int].id != r.id);
        pos = pos + 1;
    }
    let ghost old_v = v@;
    v.insert(pos, r);
    proof {
        old_v.insert_ensures(pos as int, r);
        assert forall|i: int, j: int| 0 <= i < j < v@.len() implies before(
            #[trigger] v@[i],
            #[trigger] v@[j],
        ) by {
            if i < pos && j < pos {
                assert(v@[i] == old_v[i] && v@[j] == old_v[j]);
            } else if i < pos && j == pos {
            } else if i < pos && j > pos {
                assert(v@[i] == old_v[i] && v@[j] == old_v[j - 1]);
                assert(before(old_v[i], r));
                if pos < n {
                    assert(before(r, old_v[pos as int]));
                }
            } else if i == pos {
                assert(v@[j] == old_v[j - 1]);
                if j - 1 > pos {
                    assert(before(old_v[pos as int], old_v[j - 1]));
                }
            } else {
                assert(v@[i] == old_v[i - 1] && v@[j] == old_v[j - 1]);
            }
        }
        assert forall|x: Rank| v@.contains(x) <==> (old_v.contains(x) || x == r) by {
            if v@.contains(x) {
                let i = choose|i: int| 0 <= i < v@.len() && v@[i] == x;
                if i < pos {
                    assert(old_v[i] == x);
                } else if i > pos {
                    assert(old_v[i - 1] == x);
                }
            }
            if old_v.contains(x) {
                let i = choose|i: int| 0 <= i < old_v.len() && old_v[i] == x;
                if i < pos {
                    assert(v@[i] == x);
                } else {
                    assert(v@[i + 1] == x);
                }
            }
            if x == r {
                assert(v@[pos as int] == x);
            }
        }
    }
}

/// The ranks of `c` in listing order.
pub fn sort_ranks(c: &Vec<Rank>) -> (out: Vec<Rank>)
    requires
        distinct_ids(c@),
    ensures
        ranked(out@),
        out@.len() == c@.len(),
        forall|x: Rank| out@.contains(x) <==> c@.contains(x),
{
    let mut out: Vec<Rank> = Vec::new();
    let n = c.len();
    let mut i: usize = 0;
    while i < n
        invariant
            n == c@.len(),
            i <= n,
            distinct_ids(c@),
            ranked(out@),
            out@.len() == i,
            forall|x: Rank| out@.contains(x) <==> c@.take(i as int).contains(x),
        decreases n - i,
    {
        let r = c[i];
        proof {
            assert forall|k: int| 0 <= k < out@.len() implies (#[trigger] out@[k]).id != r.id by {
                assert(out@.contains(out@[k]));
                let j = choose|j: int| 0 <= j < i && c@.take(i as int)[j] == out@[k];
                assert(c@[j] == out@[k]);
            }
        }
        insert_ranked(&mut out, r);
        proof {
            assert forall|x: Rank| out@.contains(x) <==> c@.take(i + 1).contains(x) by {
                let t = c@.take(i + 1);
                if t.contains(x) {
                    let j = choose|j: int| 0 <= j < t.len() && t[j] == x;
                    if j < i {
                        assert(c@.take(i as int)[j] == x);
                    }
                }
                if c@.take(i as int).contains(x) {
                    let j = choose|j: int| 0 <= j < i && c@.take(i as int)[j] == x;
                    assert(t[j] == x);
                }
                if x == r {
                    assert(t[i as int] == x);
                }
            }
        }
        i = i + 1;
    }
    assert(c@.take(n as int) =~= c@);
    out
}

} // verus!
