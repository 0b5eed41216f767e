use vstd::prelude::*;

use crate::text::string_views;
use vstd::hash_map::StringHashMap;

verus! {

/// A file found by full-text search, semantic search or both, with its positions (ranks)
/// in each result list.
pub struct FusedEntry {
    pub path: String,
    pub fulltext_ranks: Vec<usize>,
    pub semantic_ranks: Vec<usize>,
}

/// The positions of `s` that hold `p`, in increasing order.
pub open spec fn positions(s: Seq<Seq<char>>, p: Seq<char>) -> Seq<int>
    decreases s.len(),
{
    if s.len() == 0 {
        seq![]
    } else if s.last() == p {
        positions(s.drop_last(), p).push(s.len() - 1)
    } else {
        positions(s.drop_last(), p)
    }
}

/// Ranks as integers.
pub open spec fn ints(s: Seq<usize>) -> Seq<int> {
    s.map_values(|r: usize| r as int)
}

/// Where the file of an entry first appears in the full-text list followed by the
/// semantic list (`n_fulltext` is the length of the full-text list).
pub open spec fn first_seen(e: FusedEntry, n_fulltext: int) -> int {
    if e.fulltext_ranks@.len() > 0 {
        e.fulltext_ranks@[0] as int
    } else {
        n_fulltext + e.semantic_ranks@[0] as int
    }
}

/// One of the entries is for `p`.
pub open spec fn has_path(es: Seq<FusedEntry>, p: Seq<char>) -> bool {
    exists|e: int| 0 <= e < es.len() && #[trigger] es[e].path@ == p
}

/// `es` fuses the result lists `ft` (full-text) and `sem` (semantic): one entry per file
/// that either list holds, with exactly the positions of the file in each list, entries
/// in the order in which their files first appear in `ft` followed by `sem`.
pub open spec fn fuses(ft: Seq<Seq<char>>, sem: Seq<Seq<char>>, n_ft: int, es: Seq<FusedEntry>) -> bool {
    &&& forall|a: int, b: int| 0 <= a < b < es.len() ==> (#[trigger] es[a]).path@ != (#[trigger] es[b]).path@
    &&& forall|i: int| 0 <= i < ft.len() ==> has_path(es, #[trigger] ft[i])
    &&& forall|i: int| 0 <= i < sem.len() ==> has_path(es, #[trigger] sem[i])
    &&& forall|e: int|
        0 <= e < es.len() ==> ints((#[trigger] es[e]).fulltext_ranks@) == positions(ft, es[e].path@)
            && ints(es[e].semantic_ranks@) == positions(sem, es[e].path@)
            && (es[e].fulltext_ranks@.len() > 0 || es[e].semantic_ranks@.len() > 0)
    &&& forall|a: int, b: int| 0 <= a < b < es.len() ==> first_seen(#[trigger] es[a], n_ft) < first_seen(#[trigger] es[b], n_ft)
}

/// Every position of `p` in `s` holds `p`, and the positions are below `s.len()`.
proof fn lemma_positions(s: Seq<Seq<char>>, p: Seq<char>)
    ensures
        forall|k: int| 0 <= k < positions(s, p).len() ==> 0 <= #[trigger] positions(s, p)[k] < s.len() && s[positions(s, p)[k]] == p,
        positions(s, p).len() > 0 ==> positions(s, p)[0] < s.len(),
    decreases s.len(),
{
    if s.len() > 0 {
        lemma_positions(s.drop_last(), p);
        let q = positions(s.drop_last(), p);
        assert forall|k: int| 0 <= k < positions(s, p).len() implies 0 <= #[trigger] positions(s, p)[k] < s.len() && s[positions(s, p)[k]] == p by {
            if k < q.len() {
                assert(positions(s, p)[k] == q[k]);
                assert(s.drop_last()[q[k]] == s[q[k]]);
            }
        }
        if positions(s, p).len() > 0 {
            assert(0 <= positions(s, p)[0] < s.len());
        }
    }
}

/// Adding one more item to a list adds its position to the positions of its file only.
proof fn lemma_positions_push(s: Seq<Seq<char>>, n: int, p: Seq<char>)
    requires
        0 <= n < s.len(),
    ensures
        positions(s.take(n + 1), p) == if s[n] == p {
            positions(s.take(n), p).push(n)
        } else {
            positions(s.take(n), p)
        },
{
    assert(s.take(n + 1).drop_last() =~= s.take(n));
    assert(s.take(n + 1).last() == s[n]);
}

/// A file that has no entry has no position in a covered list.
proof fn lemma_no_entry_no_position(es: Seq<FusedEntry>, s: Seq<Seq<char>>, p: Seq<char>)
    requires
        forall|i: int| 0 <= i < s.len() ==> has_path(es, #[trigger] s[i]),
        !has_path(es, p),
    ensures
        positions(s, p) =~= Seq::<int>::empty(),
{
    lemma_positions(s, p);
    if positions(s, p).len() > 0 {
        let k = positions(s, p)[0];
        assert(s[k] == p);
        assert(has_path(es, s[k]));
    }
}


/// The entry `es[e0]` with one more full-text rank.
proof fn lemma_add_fulltext_known(
    ft: Seq<Seq<char>>,
    i: int,
    n_ft: int,
    es: Seq<FusedEntry>,
    ns: Seq<FusedEntry>,
    e0: int,
)
    requires
        0 <= i < ft.len(),
        i < usize::MAX,
        n_ft == ft.len(),
        fuses(ft.take(i), seq![], n_ft, es),
        0 <= e0 < es.len(),
        es[e0].path@ == ft[i],
        ns.len() == es.len(),
        forall|e: int| 0 <= e < es.len() && e != e0 ==> #[trigger] ns[e] == es[e],
        ns[e0].path@ == es[e0].path@,
        ns[e0].fulltext_ranks@ == es[e0].fulltext_ranks@.push(i as usize),
        ns[e0].semantic_ranks@ == es[e0].semantic_ranks@,
    ensures
        fuses(ft.take(i + 1), seq![], n_ft, ns),
{
    let a = ft.take(i);
    let b = ft.take(i + 1);
    assert(ints(ns[e0].fulltext_ranks@) =~= ints(es[e0].fulltext_ranks@).push(i));
    assert forall|x: int, y: int| 0 <= x < y < ns.len() implies (#[trigger] ns[x]).path@ != (#[trigger] ns[y]).path@ by {
        assert(ns[x].path@ == es[x].path@);
        assert(ns[y].path@ == es[y].path@);
    }
    assert forall|k: int| 0 <= k < b.len() implies has_path(ns, #[trigger] b[k]) by {
        if k < i {
            assert(b[k] == a[k]);
            assert(has_path(es, a[k]));
            let e = choose|e: int| 0 <= e < es.len() && #[trigger] es[e].path@ == a[k];
            assert(ns[e].path@ == es[e].path@);
        } else {
            assert(ns[e0].path@ == b[k]);
        }
    }
    assert forall|e: int| 0 <= e < ns.len() implies ints((#[trigger] ns[e]).fulltext_ranks@) == positions(b, ns[e].path@)
        && ints(ns[e].semantic_ranks@) == positions(seq![], ns[e].path@)
        && (ns[e].fulltext_ranks@.len() > 0 || ns[e].semantic_ranks@.len() > 0) by {
        lemma_positions_push(ft, i, ns[e].path@);
        assert(b == ft.take(i + 1));
        if e != e0 {
            assert(ns[e] == es[e]);
            if e < e0 {
                assert(es[e].path@ != es[e0].path@);
            } else {
                assert(es[e0].path@ != es[e].path@);
            }
        }
    }
    assert forall|x: int, y: int| 0 <= x < y < ns.len() implies first_seen(#[trigger] ns[x], n_ft) < first_seen(#[trigger] ns[y], n_ft) by {
        assert(first_seen(ns[x], n_ft) == first_seen(es[x], n_ft)) by {
            if x == e0 {
                assert(es[e0].fulltext_ranks@.len() > 0) by {
                    let e0e = es[e0];
                    assert(ints(e0e.semantic_ranks@) == positions(seq![], e0e.path@));
                    assert(e0e.fulltext_ranks@.len() > 0 || e0e.semantic_ranks@.len() > 0);
                    assert(positions(Seq::<Seq<char>>::empty(), e0e.path@) =~= Seq::<int>::empty());
                    assert(ints(e0e.semantic_ranks@).len() == e0e.semantic_ranks@.len());
                }
                assert(ns[x].fulltext_ranks@[0] == es[x].fulltext_ranks@[0]);
            }
        }
        assert(first_seen(ns[y], n_ft) == first_seen(es[y], n_ft)) by {
            if y == e0 {
                assert(es[e0].fulltext_ranks@.len() > 0) by {
                    let e0e = es[e0];
                    assert(ints(e0e.semantic_ranks@) == positions(seq![], e0e.path@));
                    assert(e0e.fulltext_ranks@.len() > 0 || e0e.semantic_ranks@.len() > 0);
                    assert(positions(Seq::<Seq<char>>::empty(), e0e.path@) =~= Seq::<int>::empty());
                    assert(ints(e0e.semantic_ranks@).len() == e0e.semantic_ranks@.len());
                }
                assert(ns[y].fulltext_ranks@[0] == es[y].fulltext_ranks@[0]);
            }
        }
    }
}

/// A new entry for a file not met before in the full-text list.
proof fn lemma_add_fulltext_new(
    ft: Seq<Seq<char>>,
    i: int,
    n_ft: int,
    es: Seq<FusedEntry>,
    fresh: FusedEntry,
)
    requires
        0 <= i < ft.len(),
        i < usize::MAX,
        n_ft == ft.len(),
        fuses(ft.take(i), seq![], n_ft, es),
        !has_path(es, ft[i]),
        fresh.path@ == ft[i],
        fresh.fulltext_ranks@ == seq![i as usize],
        fresh.semantic_ranks@ == Seq::<usize>::empty(),
    ensures
        fuses(ft.take(i + 1), seq![], n_ft, es.push(fresh)),
{
    let a = ft.take(i);
    let b = ft.take(i + 1);
    let ns = es.push(fresh);
    assert forall|k: int| 0 <= k < a.len() implies has_path(es, #[trigger] a[k]) by {}
    lemma_no_entry_no_position(es, a, ft[i]);
    assert(ints(fresh.fulltext_ranks@) =~= seq![i]);
    assert(ints(fresh.semantic_ranks@) =~= Seq::<int>::empty());
    assert forall|x: int, y: int| 0 <= x < y < ns.len() implies (#[trigger] ns[x]).path@ != (#[trigger] ns[y]).path@ by {
        assert(ns[x] == es[x]);
        if y < es.len() {
            assert(ns[y] == es[y]);
        } else {
            assert(!(es[x].path@ == ft[i]));
        }
    }
    assert forall|k: int| 0 <= k < b.len() implies has_path(ns, #[trigger] b[k]) by {
        if k < i {
            assert(b[k] == a[k]);
            assert(has_path(es, a[k]));
            let e = choose|e: int| 0 <= e < es.len() && #[trigger] es[e].path@ == a[k];
            assert(ns[e] == es[e]);
        } else {
            assert(ns[es.len() as int].path@ == b[k]);
        }
    }
    assert forall|e: int| 0 <= e < ns.len() implies ints((#[trigger] ns[e]).fulltext_ranks@) == positions(b, ns[e].path@)
        && ints(ns[e].semantic_ranks@) == positions(seq![], ns[e].path@)
        && (ns[e].fulltext_ranks@.len() > 0 || ns[e].semantic_ranks@.len() > 0) by {
        lemma_positions_push(ft, i, ns[e].path@);
        if e < es.len() {
            assert(ns[e] == es[e]);
            assert(es[e].path@ != ft[i]);
        }
    }
    assert forall|x: int, y: int| 0 <= x < y < ns.len() implies first_seen(#[trigger] ns[x], n_ft) < first_seen(#[trigger] ns[y], n_ft) by {
        assert(ns[x] == es[x]);
        if y < es.len() {
            assert(ns[y] == es[y]);
        } else {
            let px = es[x].path@;
            assert(ints(es[x].semantic_ranks@) == positions(seq![], px));
            assert(es[x].fulltext_ranks@.len() > 0);
            lemma_positions(a, px);
            assert(ints(es[x].fulltext_ranks@)[0] == positions(a, px)[0]);
        }
    }
}


/// The entry `es[e0]` with one more semantic rank.
proof fn lemma_add_semantic_known(
    ft: Seq<Seq<char>>,
    sem: Seq<Seq<char>>,
    i: int,
    es: Seq<FusedEntry>,
    ns: Seq<FusedEntry>,
    e0: int,
)
    requires
        0 <= i < sem.len(),
        i < usize::MAX,
        fuses(ft, sem.take(i), ft.len() as int, es),
        0 <= e0 < es.len(),
        es[e0].path@ == sem[i],
        ns.len() == es.len(),
        forall|e: int| 0 <= e < es.len() && e != e0 ==> #[trigger] ns[e] == es[e],
        ns[e0].path@ == es[e0].path@,
        ns[e0].fulltext_ranks@ == es[e0].fulltext_ranks@,
        ns[e0].semantic_ranks@ == es[e0].semantic_ranks@.push(i as usize),
    ensures
        fuses(ft, sem.take(i + 1), ft.len() as int, ns),
{
    let n_ft = ft.len() as int;
    let a = sem.take(i);
    let b = sem.take(i + 1);
    assert(ints(ns[e0].semantic_ranks@) =~= ints(es[e0].semantic_ranks@).push(i));
    assert forall|e: int| 0 <= e < ns.len() implies #[trigger] ns[e].path@ == es[e].path@ by {
        if e != e0 {
            assert(ns[e] == es[e]);
        }
    }
    assert forall|x: int, y: int| 0 <= x < y < ns.len() implies (#[trigger] ns[x]).path@ != (#[trigger] ns[y]).path@ by {
        assert(ns[x].path@ == es[x].path@);
        assert(ns[y].path@ == es[y].path@);
    }
    assert forall|k: int| 0 <= k < ft.len() implies has_path(ns, #[trigger] ft[k]) by {
        assert(has_path(es, ft[k]));
        let e = choose|e: int| 0 <= e < es.len() && #[trigger] es[e].path@ == ft[k];
        assert(ns[e].path@ == es[e].path@);
    }
    assert forall|k: int| 0 <= k < b.len() implies has_path(ns, #[trigger] b[k]) by {
        if k < i {
            assert(b[k] == a[k]);
            assert(has_path(es, a[k]));
            let e = choose|e: int| 0 <= e < es.len() && #[trigger] es[e].path@ == a[k];
            assert(ns[e].path@ == es[e].path@);
        } else {
            assert(ns[e0].path@ == b[k]);
        }
    }
    assert forall|e: int| 0 <= e < ns.len() implies ints((#[trigger] ns[e]).fulltext_ranks@) == positions(ft, ns[e].path@)
        && ints(ns[e].semantic_ranks@) == positions(b, ns[e].path@)
        && (ns[e].fulltext_ranks@.len() > 0 || ns[e].semantic_ranks@.len() > 0) by {
        lemma_positions_push(sem, i, ns[e].path@);
        if e != e0 {
            assert(ns[e] == es[e]);
            if e < e0 {
                assert(es[e].path@ != es[e0].path@);
            } else {
                assert(es[e0].path@ != es[e].path@);
            }
        }
    }
    assert forall|x: int, y: int| 0 <= x < y < ns.len() implies first_seen(#[trigger] ns[x], n_ft) < first_seen(#[trigger] ns[y], n_ft) by {
        assert(first_seen(ns[x], n_ft) == first_seen(es[x], n_ft)) by {
            if x == e0 {
                let ee = es[e0];
                assert(ee.fulltext_ranks@.len() > 0 || ee.semantic_ranks@.len() > 0);
                if ee.fulltext_ranks@.len() == 0 {
                    assert(ns[x].semantic_ranks@[0] == ee.semantic_ranks@[0]);
                }
            }
        }
        assert(first_seen(ns[y], n_ft) == first_seen(es[y], n_ft)) by {
            if y == e0 {
                let ee = es[e0];
                assert(ee.fulltext_ranks@.len() > 0 || ee.semantic_ranks@.len() > 0);
                if ee.fulltext_ranks@.len() == 0 {
                    assert(ns[y].semantic_ranks@[0] == ee.semantic_ranks@[0]);
                }
            }
        }
    }
}

/// A new entry for a file found only by semantic search so far.
proof fn lemma_add_semantic_new(
    ft: Seq<Seq<char>>,
    sem: Seq<Seq<char>>,
    i: int,
    es: Seq<FusedEntry>,
    fresh: FusedEntry,
)
    requires
        0 <= i < sem.len(),
        i < usize::MAX,
        fuses(ft, sem.take(i), ft.len() as int, es),
        !has_path(es, sem[i]),
        fresh.path@ == sem[i],
        fresh.fulltext_ranks@ == Seq::<usize>::empty(),
        fresh.semantic_ranks@ == seq![i as usize],
    ensures
        fuses(ft, sem.take(i + 1), ft.len() as int, es.push(fresh)),
{
    let n_ft = ft.len() as int;
    let a = sem.take(i);
    let b = sem.take(i + 1);
    let ns = es.push(fresh);
    assert forall|k: int| 0 <= k < a.len() implies has_path(es, #[trigger] a[k]) by {}
    assert forall|k: int| 0 <= k < ft.len() implies has_path(es, #[trigger] ft[k]) by {}
    lemma_no_entry_no_position(es, a, sem[i]);
    lemma_no_entry_no_position(es, ft, sem[i]);
    assert(ints(fresh.semantic_ranks@) =~= seq![i]);
    assert(ints(fresh.fulltext_ranks@) =~= Seq::<int>::empty());
    assert forall|x: int, y: int| 0 <= x < y < ns.len() implies (#[trigger] ns[x]).path@ != (#[trigger] ns[y]).path@ by {
        assert(ns[x] == es[x]);
        if y < es.len() {
            assert(ns[y] == es[y]);
        } else {
            assert(!(es[x].path@ == sem[i]));
        }
    }
    assert forall|k: int| 0 <= k < ft.len() implies has_path(ns, #[trigger] ft[k]) by {
        assert(has_path(es, ft[k]));
        let e = choose|e: int| 0 <= e < es.len() && #[trigger] es[e].path@ == ft[k];
        assert(ns[e] == es[e]);
    }
    assert forall|k: int| 0 <= k < b.len() implies has_path(ns, #[trigger] b[k]) by {
        if k < i {
            assert(b[k] == a[k]);
            assert(has_path(es, a[k]));
            let e = choose|e: int| 0 <= e < es.len() && #[trigger] es[e].path@ == a[k];
            assert(ns[e] == es[e]);
        } else {
            assert(ns[es.len() as int].path@ == b[k]);
        }
    }
    assert forall|e: int| 0 <= e < ns.len() implies ints((#[trigger] ns[e]).fulltext_ranks@) == positions(ft, ns[e].path@)
        && ints(ns[e].semantic_ranks@) == positions(b, ns[e].path@)
        && (ns[e].fulltext_ranks@.len() > 0 || ns[e].semantic_ranks@.len() > 0) by {
        lemma_positions_push(sem, i, ns[e].path@);
        if e < es.len() {
            assert(ns[e] == es[e]);
            assert(es[e].path@ != sem[i]);
        }
    }
    assert forall|x: int, y: int| 0 <= x < y < ns.len() implies first_seen(#[trigger] ns[x], n_ft) < first_seen(#[trigger] ns[y], n_ft) by {
        assert(ns[x] == es[x]);
        if y < es.len() {
            assert(ns[y] == es[y]);
        } else {
            let px = es[x].path@;
            lemma_positions(ft, px);
            lemma_positions(a, px);
            if es[x].fulltext_ranks@.len() > 0 {
                assert(ints(es[x].fulltext_ranks@)[0] == positions(ft, px)[0]);
            } else {
                assert(es[x].semantic_ranks@.len() > 0);
                assert(ints(es[x].semantic_ranks@)[0] == positions(a, px)[0]);
            }
            assert(first_seen(ns[y], n_ft) == n_ft + i);
        }
    }
}


/// A copy of `v`.
fn copy_ranks(v: &Vec<usize>) -> (r: Vec<usize>)
    ensures
        r@ == v@,
{
    let mut r: Vec<usize> = Vec::new();
    let mut i: usize = 0;
    while i < v.len()
        invariant
            i <= v.len(),
            r@ == v@.take(i as int),
        decreases v.len() - i,
    {
        r.push(v[i]);
        i += 1;
        assert(r@ =~= v@.take(i as int));
    }
    assert(v@.take(i as int) =~= v@);
    r
}

/// `slot` gives, for the path of each entry of `es`, the index of that entry, and
/// nothing else.
pub open spec fn slots_of(es: Seq<FusedEntry>, slot: Map<Seq<char>, usize>) -> bool {
    &&& forall|x: int|
        0 <= x < es.len() ==> slot.contains_key((#[trigger] es[x]).path@) && slot[es[x].path@] == x
    &&& forall|k: Seq<char>|
        #[trigger] slot.contains_key(k) ==> slot[k] < es.len() && es[slot[k] as int].path@ == k
}

/// The index of the entry for `p`, or `es.len()` when there is none, looked up by path.
fn find_entry(es: &Vec<FusedEntry>, slot: &StringHashMap<usize>, p: &String) -> (e: usize)
    requires
        slots_of(es@, slot@),
    ensures
        e <= es@.len(),
        e < es@.len() ==> es@[e as int].path@ == p@,
        e == es@.len() ==> !has_path(es@, p@),
{
    match slot.get(p.as_str()) {
        Some(x) => *x,
        None => {
            proof {
                if has_path(es@, p@) {
                    let k = choose|k: int| 0 <= k < es@.len() && #[trigger] es@[k].path@ == p@;
                    assert(slot@.contains_key(es@[k].path@));
                }
            }
            es.len()
        },
    }
}

/// Keeps `slot` in step with `es` when the entry at `e` is replaced by one with the
/// same path.
proof fn lemma_slots_set(es: Seq<FusedEntry>, slot: Map<Seq<char>, usize>, e: int, v: FusedEntry)
    requires
        slots_of(es, slot),
        0 <= e < es.len(),
        v.path@ == es[e].path@,
    ensures
        slots_of(es.update(e, v), slot),
{
    let ns = es.update(e, v);
    assert forall|x: int| 0 <= x < ns.len() implies slot.contains_key((#[trigger] ns[x]).path@)
        && slot[ns[x].path@] == x by {
        if x != e {
            assert(ns[x] == es[x]);
        }
    }
}

/// Keeps `slot` in step with `es` when an entry for a new path is added.
proof fn lemma_slots_push(es: Seq<FusedEntry>, slot: Map<Seq<char>, usize>, v: FusedEntry, at: usize)
    requires
        slots_of(es, slot),
        !has_path(es, v.path@),
        at == es.len(),
    ensures
        slots_of(es.push(v), slot.insert(v.path@, at)),
{
    let ns = es.push(v);
    let nslot = slot.insert(v.path@, at);
    assert forall|x: int| 0 <= x < ns.len() implies nslot.contains_key((#[trigger] ns[x]).path@)
        && nslot[ns[x].path@] == x by {
        if x < es.len() {
            assert(ns[x] == es[x]);
            assert(es[x].path@ != v.path@);
        }
    }
    assert forall|k: Seq<char>| #[trigger] nslot.contains_key(k) implies nslot[k] < ns.len()
        && ns[nslot[k] as int].path@ == k by {
        if k != v.path@ {
            assert(slot.contains_key(k));
            assert(ns[slot[k] as int] == es[slot[k] as int]);
        }
    }
}

/// Fuses the full-text results `fulltext` and the semantic results `semantic` (each a
/// list of file paths in rank order): one entry per file found by either, with its
/// ranks in each list, entries in the order in which their files first appear (the
/// full-text list first). The fused score of a file is computed from its ranks.
pub fn fuse_rankings(fulltext: &Vec<String>, semantic: &Vec<String>) -> (r: Vec<FusedEntry>)
    ensures
        fuses(
            string_views(fulltext@),
            string_views(semantic@),
            fulltext@.len() as int,
            r@,
        ),
{
    let ghost ft = string_views(fulltext@);
    let ghost sem = string_views(semantic@);
    let mut es: Vec<FusedEntry> = Vec::new();
    let mut slot: StringHashMap<usize> = StringHashMap::new();
    let mut i: usize = 0;
    assert(ft.take(0) =~= Seq::<Seq<char>>::empty());
    while i < fulltext.len()
        invariant
            i <= fulltext@.len(),
            ft == string_views(fulltext@),
            fuses(ft.take(i as int), seq![], ft.len() as int, es@),
            slots_of(es@, slot@),
        decreases fulltext.len() - i,
    {
        let p = &fulltext[i];
        let e = find_entry(&es, &slot, p);
        if e < es.len() {
            let ghost old_es = es@;
            let ent = &es[e];
            let mut ranks = copy_ranks(&ent.fulltext_ranks);
            ranks.push(i);
            let updated = FusedEntry {
                path: ent.path.clone(),
                fulltext_ranks: ranks,
                semantic_ranks: copy_ranks(&ent.semantic_ranks),
            };
            proof {
                lemma_slots_set(es@, slot@, e as int, updated);
            }
            es.set(e, updated);
            proof {
                lemma_add_fulltext_known(ft, i as int, ft.len() as int, old_es, es@, e as int);
            }
        } else {
            let mut ranks: Vec<usize> = Vec::new();
            ranks.push(i);
            let fresh = FusedEntry { path: p.clone(), fulltext_ranks: ranks, semantic_ranks: Vec::new() };
            let ghost old_es = es@;
            let at = es.len();
            proof {
                lemma_slots_push(es@, slot@, fresh, at);
            }
            es.push(fresh);
            slot.insert(p.clone(), at);
            proof {
                lemma_add_fulltext_new(ft, i as int, ft.len() as int, old_es, fresh);
            }
        }
        i += 1;
    }
    assert(ft.take(i as int) =~= ft);
    assert(sem.take(0) =~= Seq::<Seq<char>>::empty());
    let mut j: usize = 0;
    while j < semantic.len()
        invariant
            j <= semantic@.len(),
            ft == string_views(fulltext@),
            sem == string_views(semantic@),
            fuses(ft, sem.take(j as int), ft.len() as int, es@),
            slots_of(es@, slot@),
        decreases semantic.len() - j,
    {
        let p = &semantic[j];
        let e = find_entry(&es, &slot, p);
        if e < es.len() {
            let ghost old_es = es@;
            let ent = &es[e];
            let mut ranks = copy_ranks(&ent.semantic_ranks);
            ranks.push(j);
            let updated = FusedEntry {
                path: ent.path.clone(),
                fulltext_ranks: copy_ranks(&ent.fulltext_ranks),
                semantic_ranks: ranks,
            };
            proof {
                lemma_slots_set(es@, slot@, e as int, updated);
            }
            es.set(e, updated);
            proof {
                lemma_add_semantic_known(ft, sem, j as int, old_es, es@, e as int);
            }
        } else {
            let mut ranks: Vec<usize> = Vec::new();
            ranks.push(j);
            let fresh = FusedEntry { path: p.clone(), fulltext_ranks: Vec::new(), semantic_ranks: ranks };
            let ghost old_es = es@;
            let at = es.len();
            proof {
                lemma_slots_push(es@, slot@, fresh, at);
            }
            es.push(fresh);
            slot.insert(p.clone(), at);
            proof {
                lemma_add_semantic_new(ft, sem, j as int, old_es, fresh);
            }
        }
        j += 1;
    }
    assert(sem.take(j as int) =~= sem);
    es
}

} // verus!
