use vstd::prelude::*;

use crate::text::string_views;
use vstd::hash_map::StringHashMap;

verus! {

/// A score replaces the best one so far only when both compare and it is strictly
/// higher (a score that is NaN neither replaces nor is replaced).
pub open spec fn better(new: Option<u32>, old: Option<u32>) -> bool {
    match (new, old) {
        (Some(a), Some(b)) => a > b,
        _ => false,
    }
}

/// `chosen` picks, for every file among the first `n` records (`paths[i]` is the file of
/// record `i`, `keys[i]` its score), the record that the best-score rule keeps:
/// - one entry per file, files in the order in which they first appear;
/// - the record kept for a file has a score no lower than any other of its records,
///   and strictly higher than those before it (ties keep the earlier record);
/// - when the first record of a file has no comparable score, it is kept, and a record
///   without a comparable score is kept only then.
pub open spec fn picks(
    paths: Seq<Seq<char>>,
    keys: Seq<Option<u32>>,
    n: int,
    chosen: Seq<usize>,
) -> bool {
    &&& picks_in_range(n, chosen)
    &&& picks_distinct(paths, chosen)
    &&& picks_cover(paths, n, chosen)
    &&& picks_best(paths, keys, n, chosen)
    &&& picks_in_order(paths, n, chosen)
}

/// Every kept record is one of the first `n`.
pub open spec fn picks_in_range(n: int, chosen: Seq<usize>) -> bool {
    forall|e: int| 0 <= e < chosen.len() ==> #[trigger] chosen[e] < n
}

/// No two entries are for the same file.
pub open spec fn picks_distinct(paths: Seq<Seq<char>>, chosen: Seq<usize>) -> bool {
    forall|e1: int, e2: int|
        0 <= e1 < e2 < chosen.len() ==> paths[#[trigger] chosen[e1] as int] != paths[#[trigger] chosen[e2] as int]
}

/// Every file among the first `n` records has an entry.
pub open spec fn picks_cover(paths: Seq<Seq<char>>, n: int, chosen: Seq<usize>) -> bool {
    forall|i: int| 0 <= i < n ==> has_entry(paths, chosen, #[trigger] paths[i])
}

/// One of the entries is for file `p`.
pub open spec fn has_entry(paths: Seq<Seq<char>>, chosen: Seq<usize>, p: Seq<char>) -> bool {
    exists|e: int| 0 <= e < chosen.len() && #[trigger] paths[chosen[e] as int] == p
}

/// The record kept for a file scores no lower than any other of its records, strictly
/// higher than those before it, and is the first record of the file when that one has
/// no comparable score; a kept record without a comparable score is always the first
/// record of its file.
pub open spec fn picks_best(
    paths: Seq<Seq<char>>,
    keys: Seq<Option<u32>>,
    n: int,
    chosen: Seq<usize>,
) -> bool {
    forall|e: int, j: int|
        #![trigger chosen[e], paths[j]]
        0 <= e < chosen.len() && 0 <= j < n && paths[j] == paths[chosen[e] as int] ==> {
            let c = chosen[e] as int;
            &&& (keys[c] is Some && keys[j] is Some ==> keys[j]->0 <= keys[c]->0)
            &&& (j < c && keys[c] is Some && keys[j] is Some ==> keys[j]->0 < keys[c]->0)
            &&& (keys[j] is None && (forall|k: int| 0 <= k < j ==> paths[k] != paths[j]) ==> c == j)
            &&& (keys[c] is None ==> c <= j)
        }
}

/// Entries come in the order in which their files first appear.
pub open spec fn picks_in_order(paths: Seq<Seq<char>>, n: int, chosen: Seq<usize>) -> bool {
    forall|e1: int, e2: int, j: int|
        #![trigger chosen[e1], chosen[e2], paths[j]]
        0 <= e1 < e2 < chosen.len() && 0 <= j < n && paths[j] == paths[chosen[e2] as int]
            ==> occurs_before(paths, j, paths[chosen[e1] as int])
}

/// One of the records before `j` is of file `p`.
pub open spec fn occurs_before(paths: Seq<Seq<char>>, j: int, p: Seq<char>) -> bool {
    exists|k: int| 0 <= k < j && #[trigger] paths[k] == p
}

/// The record kept for each file: for every file, the record with the highest score
/// (the first of them on a tie), files in the order in which they first appear. A
/// record whose score is NaN (`None`) never replaces another, and a file whose first
/// record is NaN keeps that record.
pub fn best_per_file(paths: &Vec<String>, keys: &Vec<Option<u32>>) -> (r: Vec<usize>)
    requires
        paths@.len() == keys@.len(),
    ensures
        picks(string_views(paths@), keys@, paths@.len() as int, r@),
{
    let ghost ps = string_views(paths@);
    let n = paths.len();
    let mut chosen: Vec<usize> = Vec::new();
    // the entry of each file met so far, by path
    let mut slot: StringHashMap<usize> = StringHashMap::new();
    let mut i: usize = 0;
    while i < n
        invariant
            i <= n == paths@.len() == keys@.len(),
            ps == string_views(paths@),
            picks(ps, keys@, i as int, chosen@),
            forall|x: int|
                0 <= x < chosen@.len() ==> slot@.contains_key(ps[#[trigger] chosen@[x] as int])
                    && slot@[ps[chosen@[x] as int]] == x,
            forall|k: Seq<char>|
                #[trigger] slot@.contains_key(k) ==> slot@[k] < chosen@.len() && ps[chosen@[slot@[k] as int] as int] == k,
        decreases n - i,
    {
        assert(ps[i as int] == paths@[i as int]@);
        let found = slot.get(paths[i].as_str());
        let e: usize = match found {
            Some(x) => *x,
            None => chosen.len(),
        };
        if e == chosen.len() {
            assert forall|x: int| 0 <= x < chosen@.len() implies ps[#[trigger] chosen@[x] as int]
                != ps[i as int] by {
                if ps[chosen@[x] as int] == ps[i as int] {
                    assert(slot@.contains_key(ps[chosen@[x] as int]));
                }
            }
        }
        let ghost old_c = chosen@;
        if e == chosen.len() {
            chosen.push(i as usize);
            slot.insert(paths[i].clone(), e);
            proof {
                lemma_pick_new(ps, keys@, i as int, old_c);
                assert forall|x: int| 0 <= x < chosen@.len() implies slot@.contains_key(
                    ps[#[trigger] chosen@[x] as int],
                ) && slot@[ps[chosen@[x] as int]] == x by {
                    if x < old_c.len() {
                        assert(chosen@[x] == old_c[x]);
                    }
                }
            }
        } else {
            assert(ps[chosen@[e as int] as int] == ps[i as int]);
            let c = chosen[e];
            let replace = match (keys[i], keys[c]) {
                (Some(a), Some(b)) => a > b,
                _ => false,
            };
            if replace {
                chosen.set(e, i);
                proof {
                    lemma_pick_replace(ps, keys@, i as int, old_c, e as int);
                    assert forall|x: int| 0 <= x < chosen@.len() implies slot@.contains_key(
                        ps[#[trigger] chosen@[x] as int],
                    ) && slot@[ps[chosen@[x] as int]] == x by {
                        if x != e {
                            assert(chosen@[x] == old_c[x]);
                        }
                    }
                }
            } else {
                proof {
                    lemma_pick_keep(ps, keys@, i as int, old_c, e as int);
                }
            }
        }
        i += 1;
    }
    chosen
}

/// A record of a file not met before opens a new entry.
proof fn lemma_pick_new(paths: Seq<Seq<char>>, keys: Seq<Option<u32>>, i: int, chosen: Seq<usize>)
    requires
        0 <= i < paths.len() == keys.len(),
        i < usize::MAX,
        picks(paths, keys, i, chosen),
        forall|x: int| 0 <= x < chosen.len() ==> paths[#[trigger] chosen[x] as int] != paths[i],
    ensures
        picks(paths, keys, i + 1, chosen.push(i as usize)),
{
    let nc = chosen.push(i as usize);
    assert((i as usize) as int == i);
    assert(nc[chosen.len() as int] as int == i);
    assert forall|j: int| 0 <= j < i implies #[trigger] paths[j] != paths[i] by {
        assert(has_entry(paths, chosen, paths[j]));
        let e = choose|e: int| 0 <= e < chosen.len() && #[trigger] paths[chosen[e] as int] == paths[j];
        assert(paths[chosen[e] as int] != paths[i]);
    }
    assert forall|e: int| 0 <= e < nc.len() implies #[trigger] nc[e] < i + 1 by {
        if e < chosen.len() {
            assert(nc[e] == chosen[e]);
        }
    }
    assert forall|e1: int, e2: int| 0 <= e1 < e2 < nc.len() implies paths[#[trigger] nc[e1] as int]
        != paths[#[trigger] nc[e2] as int] by {
        assert(nc[e1] == chosen[e1]);
        if e2 < chosen.len() {
            assert(nc[e2] == chosen[e2]);
        }
    }
    lemma_new_cover(paths, i, chosen);
    lemma_new_best(paths, keys, i, chosen);
    lemma_new_order(paths, i, chosen);
}

proof fn lemma_new_cover(paths: Seq<Seq<char>>, i: int, chosen: Seq<usize>)
    requires
        0 <= i < paths.len(),
        i < usize::MAX,
        picks_cover(paths, i, chosen),
    ensures
        picks_cover(paths, i + 1, chosen.push(i as usize)),
{
    let nc = chosen.push(i as usize);
    assert forall|j: int| 0 <= j < i + 1 implies has_entry(paths, nc, #[trigger] paths[j]) by {
        if j < i {
            assert(has_entry(paths, chosen, paths[j]));
            let e = choose|e: int| 0 <= e < chosen.len() && #[trigger] paths[chosen[e] as int] == paths[j];
            assert(nc[e] == chosen[e]);
            assert(paths[nc[e] as int] == paths[j]);
        } else {
            assert(nc[chosen.len() as int] as int == i);
            assert(paths[nc[chosen.len() as int] as int] == paths[j]);
        }
    }
}

proof fn lemma_new_best(paths: Seq<Seq<char>>, keys: Seq<Option<u32>>, i: int, chosen: Seq<usize>)
    requires
        0 <= i < paths.len() == keys.len(),
        i < usize::MAX,
        picks_in_range(i, chosen),
        picks_best(paths, keys, i, chosen),
        forall|x: int| 0 <= x < chosen.len() ==> paths[#[trigger] chosen[x] as int] != paths[i],
        forall|j: int| 0 <= j < i ==> #[trigger] paths[j] != paths[i],
    ensures
        picks_best(paths, keys, i + 1, chosen.push(i as usize)),
{
    let nc = chosen.push(i as usize);
    assert forall|e: int, j: int|
        #![trigger nc[e], paths[j]]
        0 <= e < nc.len() && 0 <= j < i + 1 && paths[j] == paths[nc[e] as int] implies {
            let c = nc[e] as int;
            &&& (keys[c] is Some && keys[j] is Some ==> keys[j]->0 <= keys[c]->0)
            &&& (j < c && keys[c] is Some && keys[j] is Some ==> keys[j]->0 < keys[c]->0)
            &&& (keys[j] is None && (forall|k: int| 0 <= k < j ==> paths[k] != paths[j]) ==> c == j)
            &&& (keys[c] is None ==> c <= j)
        } by {
        if e < chosen.len() {
            assert(nc[e] == chosen[e]);
            if j == i {
                assert(paths[chosen[e] as int] != paths[i]);
            }
        } else {
            assert(nc[e] as int == i);
            if j < i {
                assert(paths[j] != paths[i]);
            }
        }
    }
}

proof fn lemma_new_order(paths: Seq<Seq<char>>, i: int, chosen: Seq<usize>)
    requires
        0 <= i < paths.len(),
        i < usize::MAX,
        picks_in_range(i, chosen),
        picks_in_order(paths, i, chosen),
        forall|x: int| 0 <= x < chosen.len() ==> paths[#[trigger] chosen[x] as int] != paths[i],
        forall|j: int| 0 <= j < i ==> #[trigger] paths[j] != paths[i],
    ensures
        picks_in_order(paths, i + 1, chosen.push(i as usize)),
{
    let nc = chosen.push(i as usize);
    assert forall|e1: int, e2: int, j: int|
        #![trigger nc[e1], nc[e2], paths[j]]
        0 <= e1 < e2 < nc.len() && 0 <= j < i + 1 && paths[j] == paths[nc[e2] as int] implies occurs_before(paths, j, paths[nc[e1] as int]) by {
        assert(nc[e1] == chosen[e1]);
        if e2 < chosen.len() {
            assert(nc[e2] == chosen[e2]);
            if j == i {
                assert(paths[chosen[e2] as int] != paths[i]);
            }
            assert(occurs_before(paths, j, paths[chosen[e1] as int]));
        } else {
            assert(nc[e2] as int == i);
            if j < i {
                assert(paths[j] != paths[i]);
            }
            let k = chosen[e1] as int;
            assert(k < i);
            assert(paths[k] == paths[nc[e1] as int]);
        }
    }
}

/// A record of a known file with a strictly higher score replaces the kept one.
proof fn lemma_pick_replace(
    paths: Seq<Seq<char>>,
    keys: Seq<Option<u32>>,
    i: int,
    chosen: Seq<usize>,
    e0: int,
)
    requires
        0 <= i < paths.len() == keys.len(),
        i < usize::MAX,
        picks(paths, keys, i, chosen),
        0 <= e0 < chosen.len(),
        paths[chosen[e0] as int] == paths[i],
        better(keys[i], keys[chosen[e0] as int]),
    ensures
        picks(paths, keys, i + 1, chosen.update(e0, i as usize)),
{
    let nc = chosen.update(e0, i as usize);
    assert(nc[e0] as int == i);
    assert(paths[nc[e0] as int] == paths[i]);
    assert forall|e: int| 0 <= e < nc.len() implies #[trigger] paths[nc[e] as int] == paths[chosen[e] as int] by {
        if e != e0 {
            assert(nc[e] == chosen[e]);
        }
    }
    assert forall|e: int| 0 <= e < nc.len() implies #[trigger] nc[e] < i + 1 by {
        if e != e0 {
            assert(nc[e] == chosen[e]);
        }
    }
    assert forall|e1: int, e2: int| 0 <= e1 < e2 < nc.len() implies paths[#[trigger] nc[e1] as int]
        != paths[#[trigger] nc[e2] as int] by {
        assert(paths[nc[e1] as int] == paths[chosen[e1] as int]);
        assert(paths[nc[e2] as int] == paths[chosen[e2] as int]);
    }
    lemma_replace_cover(paths, i, chosen, nc);
    lemma_replace_best(paths, keys, i, chosen, e0);
    lemma_replace_order(paths, i, chosen, nc);
}

proof fn lemma_replace_cover(paths: Seq<Seq<char>>, i: int, chosen: Seq<usize>, nc: Seq<usize>)
    requires
        0 <= i < paths.len(),
        picks_cover(paths, i, chosen),
        nc.len() == chosen.len(),
        forall|e: int| 0 <= e < nc.len() ==> #[trigger] paths[nc[e] as int] == paths[chosen[e] as int],
        has_entry(paths, nc, paths[i]),
    ensures
        picks_cover(paths, i + 1, nc),
{
    assert forall|j: int| 0 <= j < i + 1 implies has_entry(paths, nc, #[trigger] paths[j]) by {
        if j < i {
            assert(has_entry(paths, chosen, paths[j]));
            let e = choose|e: int| 0 <= e < chosen.len() && #[trigger] paths[chosen[e] as int] == paths[j];
            assert(paths[nc[e] as int] == paths[j]);
        }
    }
}

proof fn lemma_replace_best(
    paths: Seq<Seq<char>>,
    keys: Seq<Option<u32>>,
    i: int,
    chosen: Seq<usize>,
    e0: int,
)
    requires
        0 <= i < paths.len() == keys.len(),
        i < usize::MAX,
        picks_in_range(i, chosen),
        picks_distinct(paths, chosen),
        picks_best(paths, keys, i, chosen),
        0 <= e0 < chosen.len(),
        paths[chosen[e0] as int] == paths[i],
        better(keys[i], keys[chosen[e0] as int]),
    ensures
        picks_best(paths, keys, i + 1, chosen.update(e0, i as usize)),
{
    let nc = chosen.update(e0, i as usize);
    let c0 = chosen[e0] as int;
    assert(nc[e0] as int == i);
    assert forall|e: int, j: int|
        #![trigger nc[e], paths[j]]
        0 <= e < nc.len() && 0 <= j < i + 1 && paths[j] == paths[nc[e] as int] implies {
            let c = nc[e] as int;
            &&& (keys[c] is Some && keys[j] is Some ==> keys[j]->0 <= keys[c]->0)
            &&& (j < c && keys[c] is Some && keys[j] is Some ==> keys[j]->0 < keys[c]->0)
            &&& (keys[j] is None && (forall|k: int| 0 <= k < j ==> paths[k] != paths[j]) ==> c == j)
            &&& (keys[c] is None ==> c <= j)
        } by {
        if e != e0 {
            assert(nc[e] == chosen[e]);
            if j == i {
                if e < e0 {
                    assert(paths[chosen[e] as int] != paths[chosen[e0] as int]);
                } else {
                    assert(paths[chosen[e0] as int] != paths[chosen[e] as int]);
                }
            }
        } else {
            if j < i {
                assert(paths[j] == paths[chosen[e0] as int]);
                assert(keys[c0] is Some);
                if keys[j] is None && (forall|k: int| 0 <= k < j ==> paths[k] != paths[j]) {
                    assert(c0 == j);
                }
            }
        }
    }
}

proof fn lemma_replace_order(paths: Seq<Seq<char>>, i: int, chosen: Seq<usize>, nc: Seq<usize>)
    requires
        0 <= i < paths.len(),
        picks_in_range(i, chosen),
        picks_in_order(paths, i, chosen),
        nc.len() == chosen.len(),
        forall|e: int| 0 <= e < nc.len() ==> #[trigger] paths[nc[e] as int] == paths[chosen[e] as int],
    ensures
        picks_in_order(paths, i + 1, nc),
{
    assert forall|e1: int, e2: int, j: int|
        #![trigger nc[e1], nc[e2], paths[j]]
        0 <= e1 < e2 < nc.len() && 0 <= j < i + 1 && paths[j] == paths[nc[e2] as int] implies occurs_before(paths, j, paths[nc[e1] as int]) by {
        assert(paths[nc[e1] as int] == paths[chosen[e1] as int]);
        assert(paths[nc[e2] as int] == paths[chosen[e2] as int]);
        if j < i {
            assert(occurs_before(paths, j, paths[chosen[e1] as int]));
        } else {
            let c2 = chosen[e2] as int;
            assert(0 <= c2 < i);
            assert(paths[c2] == paths[chosen[e2] as int]);
            assert(occurs_before(paths, c2, paths[chosen[e1] as int]));
        }
    }
}

/// A record of a known file that is not strictly better leaves the entries as they are.
proof fn lemma_pick_keep(
    paths: Seq<Seq<char>>,
    keys: Seq<Option<u32>>,
    i: int,
    chosen: Seq<usize>,
    e0: int,
)
    requires
        0 <= i < paths.len() == keys.len(),
        i < usize::MAX,
        picks(paths, keys, i, chosen),
        0 <= e0 < chosen.len(),
        paths[chosen[e0] as int] == paths[i],
        !better(keys[i], keys[chosen[e0] as int]),
    ensures
        picks(paths, keys, i + 1, chosen),
{
    lemma_keep_cover(paths, i, chosen, e0);
    lemma_keep_best(paths, keys, i, chosen, e0);
    lemma_keep_order(paths, i, chosen, e0);
    assert forall|e: int| 0 <= e < chosen.len() implies #[trigger] chosen[e] < i + 1 by {
        assert(chosen[e] < i);
    }
}

proof fn lemma_keep_cover(paths: Seq<Seq<char>>, i: int, chosen: Seq<usize>, e0: int)
    requires
        0 <= i < paths.len(),
        picks_cover(paths, i, chosen),
        0 <= e0 < chosen.len(),
        paths[chosen[e0] as int] == paths[i],
    ensures
        picks_cover(paths, i + 1, chosen),
{
    assert forall|j: int| 0 <= j < i + 1 implies exists|e: int|
        0 <= e < chosen.len() && paths[#[trigger] chosen[e] as int] == #[trigger] paths[j] by {
        if j < i {
            let e = choose|e: int| 0 <= e < chosen.len() && paths[#[trigger] chosen[e] as int] == #[trigger] paths[j];
        } else {
            assert(paths[chosen[e0] as int] == paths[j]);
        }
    }
}

proof fn lemma_keep_best(
    paths: Seq<Seq<char>>,
    keys: Seq<Option<u32>>,
    i: int,
    chosen: Seq<usize>,
    e0: int,
)
    requires
        0 <= i < paths.len() == keys.len(),
        picks_in_range(i, chosen),
        picks_distinct(paths, chosen),
        picks_best(paths, keys, i, chosen),
        0 <= e0 < chosen.len(),
        paths[chosen[e0] as int] == paths[i],
        !better(keys[i], keys[chosen[e0] as int]),
    ensures
        picks_best(paths, keys, i + 1, chosen),
{
    let c0 = chosen[e0] as int;
    assert forall|e: int, j: int|
        #![trigger chosen[e], paths[j]]
        0 <= e < chosen.len() && 0 <= j < i + 1 && paths[j] == paths[chosen[e] as int] implies {
            let c = chosen[e] as int;
            &&& (keys[c] is Some && keys[j] is Some ==> keys[j]->0 <= keys[c]->0)
            &&& (j < c && keys[c] is Some && keys[j] is Some ==> keys[j]->0 < keys[c]->0)
            &&& (keys[j] is None && (forall|k: int| 0 <= k < j ==> paths[k] != paths[j]) ==> c == j)
            &&& (keys[c] is None ==> c <= j)
        } by {
        if j == i {
            if e != e0 {
                if e < e0 {
                    assert(paths[chosen[e] as int] != paths[chosen[e0] as int]);
                } else {
                    assert(paths[chosen[e0] as int] != paths[chosen[e] as int]);
                }
            } else {
                assert(paths[c0] == paths[j]);
                assert(c0 < i);
            }
        }
    }
}

proof fn lemma_keep_order(paths: Seq<Seq<char>>, i: int, chosen: Seq<usize>, e0: int)
    requires
        0 <= i < paths.len(),
        picks_in_range(i, chosen),
        picks_distinct(paths, chosen),
        picks_in_order(paths, i, chosen),
        0 <= e0 < chosen.len(),
        paths[chosen[e0] as int] == paths[i],
    ensures
        picks_in_order(paths, i + 1, chosen),
{
    assert forall|e1: int, e2: int, j: int|
        #![trigger chosen[e1], chosen[e2], paths[j]]
        0 <= e1 < e2 < chosen.len() && 0 <= j < i + 1 && paths[j] == paths[chosen[e2] as int] implies occurs_before(paths, j, paths[chosen[e1] as int]) by {
        if j == i {
            let c2 = chosen[e2] as int;
            assert(0 <= c2 < i);
            assert(paths[c2] == paths[chosen[e2] as int]);
            assert(occurs_before(paths, c2, paths[chosen[e1] as int]));
        } else {
            assert(occurs_before(paths, j, paths[chosen[e1] as int]));
        }
    }
}

} // verus!
