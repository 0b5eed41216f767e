use vstd::prelude::*;

verus! {

/// Where a score stands in the ordering: a comparable score by its key (keys order as the
/// scores do), a score that compares with nothing (NaN) below all of them.
pub open spec fn score_rank(k: Option<u32>) -> int {
    match k {
        Some(x) => x as int,
        None => -1,
    }
}

/// Item `a` comes before item `b` in a ranking: it scores higher, or as high and came
/// first.
pub open spec fn precedes(keys: Seq<Option<u32>>, a: int, b: int) -> bool {
    score_rank(keys[a]) > score_rank(keys[b]) || (score_rank(keys[a]) == score_rank(keys[b])
        && a < b)
}

/// `o` lists distinct items below `n` in ranking order.
pub open spec fn ranked(keys: Seq<Option<u32>>, o: Seq<usize>, n: nat) -> bool {
    &&& forall|i: int| 0 <= i < o.len() ==> #[trigger] o[i] < n
    &&& forall|i: int, j: int| 0 <= i < j < o.len() ==> precedes(keys, #[trigger] o[i] as int, #[trigger] o[j] as int)
}

/// `r` is the ranking of the items `0 .. keys.len()` cut to the first `limit`: as many
/// items as the limit allows, in ranking order, and every item left out comes after
/// every item kept.
pub open spec fn top_ranked(keys: Seq<Option<u32>>, limit: nat, r: Seq<usize>) -> bool {
    &&& r.len() == if limit < keys.len() {
        limit
    } else {
        keys.len()
    }
    &&& ranked(keys, r, keys.len())
    &&& forall|x: usize, i: int|
        #![trigger r[i], r.contains(x)]
        x < keys.len() && !r.contains(x) && 0 <= i < r.len() ==> precedes(
            keys,
            r[i] as int,
            x as int,
        )
}

/// Item `i` comes before item `j` by their keys alone, read as unsigned integers: a
/// larger key first, a comparable key before a NaN (`None`), and on equal keys (or two
/// NaNs) the earlier item first.
pub open spec fn key_first(keys: Seq<Option<u32>>, i: int, j: int) -> bool {
    match (keys[i], keys[j]) {
        (Some(a), Some(b)) => a > b || (a == b && i < j),
        (Some(_), None) => true,
        (None, Some(_)) => false,
        (None, None) => i < j,
    }
}

/// A ranking puts the items in the order of their keys: of two kept items the earlier
/// one comes first by `key_first`, and every kept item comes first by `key_first`
/// before every item left out. So a larger score (its key, read as an unsigned
/// integer) always ranks higher, NaN ranks last, and ties keep the items' order.
pub proof fn law_rank_by_key(keys: Seq<Option<u32>>, limit: nat, r: Seq<usize>)
    requires
        top_ranked(keys, limit, r),
    ensures
        forall|p: int, q: int|
            0 <= p < q < r.len() ==> key_first(keys, #[trigger] r[p] as int, #[trigger] r[q] as int),
        forall|x: usize, i: int|
            #![trigger r[i], r.contains(x)]
            x < keys.len() && !r.contains(x) && 0 <= i < r.len() ==> key_first(
                keys,
                r[i] as int,
                x as int,
            ),
{
    assert forall|p: int, q: int| 0 <= p < q < r.len() implies key_first(
        keys,
        #[trigger] r[p] as int,
        #[trigger] r[q] as int,
    ) by {
        assert(precedes(keys, r[p] as int, r[q] as int));
    }
    assert forall|x: usize, i: int|
        #![trigger r[i], r.contains(x)]
        x < keys.len() && !r.contains(x) && 0 <= i < r.len() implies key_first(
        keys,
        r[i] as int,
        x as int,
    ) by {
        assert(precedes(keys, r[i] as int, x as int));
    }
}

/// The rankings cut to the limits `l1` and `l2` agree on their first `m` items.
proof fn lemma_rank_agree(
    keys: Seq<Option<u32>>,
    l1: nat,
    l2: nat,
    r1: Seq<usize>,
    r2: Seq<usize>,
    m: int,
)
    requires
        l1 <= l2,
        top_ranked(keys, l1, r1),
        top_ranked(keys, l2, r2),
        0 <= m <= r1.len(),
    ensures
        forall|i: int| 0 <= i < m ==> r1[i] == r2[i],
    decreases m,
{
    if m > 0 {
        lemma_rank_agree(keys, l1, l2, r1, r2, m - 1);
        let i = m - 1;
        let a = r1[i];
        let b = r2[i];
        if a != b {
            if r1.contains(b) {
                let k = choose|k: int| 0 <= k < r1.len() && r1[k] == b;
                if k < i {
                    assert(r2[k] == b);
                    assert(precedes(keys, r2[k] as int, r2[i] as int));
                } else {
                    assert(precedes(keys, r1[i] as int, r1[k] as int));
                }
            } else {
                assert(b < keys.len());
                assert(precedes(keys, r1[i] as int, b as int));
            }
            if r2.contains(a) {
                let k = choose|k: int| 0 <= k < r2.len() && r2[k] == a;
                if k < i {
                    assert(r1[k] == a);
                    assert(precedes(keys, r1[k] as int, r1[i] as int));
                } else {
                    assert(precedes(keys, r2[i] as int, r2[k] as int));
                }
            } else {
                assert(a < keys.len());
                assert(precedes(keys, r2[i] as int, a as int));
            }
        }
    }
}

/// A smaller limit gives the start of what a larger one gives: the ranking cut to
/// `l1` is the first items of the ranking cut to `l2` whenever `l1 <= l2`.
pub proof fn law_rank_prefix(
    keys: Seq<Option<u32>>,
    l1: nat,
    l2: nat,
    r1: Seq<usize>,
    r2: Seq<usize>,
)
    requires
        l1 <= l2,
        top_ranked(keys, l1, r1),
        top_ranked(keys, l2, r2),
    ensures
        r1 == r2.take(r1.len() as int),
{
    lemma_rank_agree(keys, l1, l2, r1, r2, r1.len() as int);
    assert(r1 =~= r2.take(r1.len() as int));
}

fn rank_of(k: Option<u32>) -> (r: i64)
    ensures
        r == score_rank(k),
{
    match k {
        Some(x) => x as i64,
        None => -1,
    }
}

/// Whether item `a` comes before item `b` in a ranking, as `precedes` states.
fn comes_before(keys: &Vec<Option<u32>>, a: usize, b: usize) -> (r: bool)
    requires
        a < keys@.len(),
        b < keys@.len(),
    ensures
        r == precedes(keys@, a as int, b as int),
{
    let ra = rank_of(keys[a]);
    let rb = rank_of(keys[b]);
    ra > rb || (ra == rb && a < b)
}

/// What a list holds after a push: what it held, and the pushed item.
proof fn lemma_push_contains(s: Seq<usize>, v: usize, x: usize)
    ensures
        s.push(v).contains(x) <==> s.contains(x) || x == v,
{
    let t = s.push(v);
    if s.contains(x) {
        let k = choose|k: int| 0 <= k < s.len() && s[k] == x;
        assert(t[k] == x);
    }
    if x == v {
        assert(t[s.len() as int] == v);
    }
    if t.contains(x) {
        let k = choose|k: int| 0 <= k < t.len() && t[k] == x;
        if k < s.len() {
            assert(s[k] == x);
        }
    }
}

/// The two rankings `left` and `right`, which share no item, merged into one.
fn merge_ranked(keys: &Vec<Option<u32>>, left: &Vec<usize>, right: &Vec<usize>) -> (r: Vec<usize>)
    requires
        ranked(keys@, left@, keys@.len()),
        ranked(keys@, right@, keys@.len()),
        forall|a: int, b: int|
            0 <= a < left@.len() && 0 <= b < right@.len() ==> #[trigger] left@[a] != #[trigger] right@[b],
    ensures
        ranked(keys@, r@, keys@.len()),
        r@.len() == left@.len() + right@.len(),
        forall|x: usize| #[trigger] r@.contains(x) <==> left@.contains(x) || right@.contains(x),
{
    let mut out: Vec<usize> = Vec::new();
    let mut i: usize = 0;
    let mut j: usize = 0;
    while i < left.len() || j < right.len()
        invariant
            i <= left@.len(),
            j <= right@.len(),
            out@.len() == i + j,
            ranked(keys@, left@, keys@.len()),
            ranked(keys@, right@, keys@.len()),
            forall|a: int, b: int|
                0 <= a < left@.len() && 0 <= b < right@.len() ==> #[trigger] left@[a] != #[trigger] right@[b],
            ranked(keys@, out@, keys@.len()),
            forall|x: usize|
                #[trigger] out@.contains(x) <==> left@.take(i as int).contains(x) || right@.take(
                    j as int,
                ).contains(x),
            forall|k: int, a: int|
                0 <= k < out@.len() && i <= a < left@.len() ==> precedes(
                    keys@,
                    #[trigger] out@[k] as int,
                    #[trigger] left@[a] as int,
                ),
            forall|k: int, b: int|
                0 <= k < out@.len() && j <= b < right@.len() ==> precedes(
                    keys@,
                    #[trigger] out@[k] as int,
                    #[trigger] right@[b] as int,
                ),
        decreases left@.len() + right@.len() - i - j,
    {
        let ghost old_out = out@;
        let ghost old_lt = left@.take(i as int);
        let ghost old_rt = right@.take(j as int);
        let take_left = if i < left.len() && j < right.len() {
            comes_before(keys, left[i], right[j])
        } else {
            i < left.len()
        };
        if take_left {
            let x = left[i];
            proof {
                assert forall|b: int| j <= b < right@.len() implies precedes(
                    keys@,
                    x as int,
                    #[trigger] right@[b] as int,
                ) by {
                    if b > j {
                        assert(precedes(keys@, right@[j as int] as int, right@[b] as int));
                    }
                }
                assert forall|a: int| i < a < left@.len() implies precedes(
                    keys@,
                    x as int,
                    #[trigger] left@[a] as int,
                ) by {
                    assert(precedes(keys@, left@[i as int] as int, left@[a] as int));
                }
                assert(left@.take(i + 1) =~= left@.take(i as int).push(x));
            }
            out.push(x);
            i += 1;
        } else {
            let y = right[j];
            proof {
                if i < left@.len() {
                    assert(left@[i as int] != right@[j as int]);
                }
                assert forall|a: int| i <= a < left@.len() implies precedes(
                    keys@,
                    y as int,
                    #[trigger] left@[a] as int,
                ) by {
                    assert(left@[a] != right@[j as int]);
                    if a > i {
                        assert(precedes(keys@, left@[i as int] as int, left@[a] as int));
                        assert(left@[i as int] != right@[j as int]);
                    }
                }
                assert forall|b: int| j < b < right@.len() implies precedes(
                    keys@,
                    y as int,
                    #[trigger] right@[b] as int,
                ) by {
                    assert(precedes(keys@, right@[j as int] as int, right@[b] as int));
                }
                assert(right@.take(j + 1) =~= right@.take(j as int).push(y));
            }
            out.push(y);
            j += 1;
        }
        proof {
            let no = out@;
            assert forall|x: usize| #[trigger] no.contains(x) <==> left@.take(i as int).contains(x)
                || right@.take(j as int).contains(x) by {
                lemma_push_contains(old_out, no.last(), x);
                assert(no == old_out.push(no.last()));
                if take_left {
                    lemma_push_contains(old_lt, no.last(), x);
                    assert(right@.take(j as int) == old_rt);
                } else {
                    lemma_push_contains(old_rt, no.last(), x);
                    assert(left@.take(i as int) == old_lt);
                }
            }
            assert forall|k: int| 0 <= k < no.len() implies #[trigger] no[k] < keys@.len() by {
                if k < old_out.len() {
                    assert(no[k] == old_out[k]);
                }
            }
            assert forall|a: int, b: int| 0 <= a < b < no.len() implies precedes(
                keys@,
                #[trigger] no[a] as int,
                #[trigger] no[b] as int,
            ) by {
                assert(no[a] == old_out[a]);
                if b < old_out.len() {
                    assert(no[b] == old_out[b]);
                }
            }
            assert forall|k: int, a: int|
                0 <= k < no.len() && i <= a < left@.len() implies precedes(
                keys@,
                #[trigger] no[k] as int,
                #[trigger] left@[a] as int,
            ) by {
                if k < old_out.len() {
                    assert(no[k] == old_out[k]);
                }
            }
            assert forall|k: int, b: int|
                0 <= k < no.len() && j <= b < right@.len() implies precedes(
                keys@,
                #[trigger] no[k] as int,
                #[trigger] right@[b] as int,
            ) by {
                if k < old_out.len() {
                    assert(no[k] == old_out[k]);
                }
            }
        }
    }
    assert(left@.take(i as int) =~= left@);
    assert(right@.take(j as int) =~= right@);
    out
}

/// The items `lo .. hi` in ranking order, sorted by merging.
fn rank_range(keys: &Vec<Option<u32>>, lo: usize, hi: usize) -> (r: Vec<usize>)
    requires
        lo <= hi <= keys@.len(),
    ensures
        ranked(keys@, r@, keys@.len()),
        r@.len() == hi - lo,
        forall|x: usize| #[trigger] r@.contains(x) <==> lo <= x < hi,
    decreases hi - lo,
{
    if hi - lo <= 1 {
        let mut r: Vec<usize> = Vec::new();
        if lo < hi {
            r.push(lo);
            assert(r@[0] == lo);
        }
        r
    } else {
        let mid = lo + (hi - lo) / 2;
        let left = rank_range(keys, lo, mid);
        let right = rank_range(keys, mid, hi);
        assert forall|a: int, b: int|
            0 <= a < left@.len() && 0 <= b < right@.len() implies #[trigger] left@[a]
            != #[trigger] right@[b] by {
            assert(left@.contains(left@[a]));
            assert(right@.contains(right@[b]));
        }
        merge_ranked(keys, &left, &right)
    }
}

/// The items `0 .. keys.len()` in ranking order (highest score first, ties in item
/// order), cut to the first `limit`.
pub fn rank_by_score(keys: &Vec<Option<u32>>, limit: usize) -> (r: Vec<usize>)
    ensures
        top_ranked(keys@, limit as nat, r@),
        forall|p: int, q: int|
            0 <= p < q < r@.len() ==> key_first(keys@, #[trigger] r@[p] as int, #[trigger] r@[q] as int),
{
    let n = keys.len();
    let mut o = rank_range(keys, 0, n);
    let ghost full = o@;
    o.truncate(limit);
    proof {
        let r = o@;
        assert forall|x: usize, k: int|
            #![trigger r[k], r.contains(x)]
            x < n && !r.contains(x) && 0 <= k < r.len() implies precedes(
            keys@,
            r[k] as int,
            x as int,
        ) by {
            assert(full.contains(x));
            let q = choose|q: int| 0 <= q < full.len() && full[q] == x;
            if q < r.len() {
                assert(r[q] == x);
            }
            assert(r[k] == full[k]);
        }
        law_rank_by_key(keys@, limit as nat, r);
    }
    o
}

} // verus!
