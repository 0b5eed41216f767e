use vstd::prelude::*;

use crate::text::string_views;
use vstd::hash_map::StringHashMap;
use vstd::hash_set::StringHashSet;

verus! {

/// The BLAKE3 hash of `bytes` as `blake3::hash(..).to_hex()` writes it. It depends on the
/// bytes alone.
pub uninterp spec fn blake3_hex(bytes: Seq<u8>) -> Seq<char>;

/// A lower-case hexadecimal digit.
pub open spec fn is_hex_digit(c: char) -> bool {
    ('0' <= c && c <= '9') || ('a' <= c && c <= 'f')
}

/// Hashes `bytes` with `blake3::hash` and writes the hash with `Hash::to_hex`. The
/// contract claims that the result is `blake3_hex` of the bytes and, as `to_hex` writes
/// each of the 32 bytes of the hash as two digits from "0123456789abcdef", that it is
/// 64 lower-case hexadecimal digits.
#[verifier::external_body]
fn blake3_hash_hex(bytes: &[u8]) -> (r: String)
    ensures
        r@ == blake3_hex(bytes@),
        r@.len() == 64,
        forall|i: int| 0 <= i < r@.len() ==> is_hex_digit(#[trigger] r@[i]),
{
    blake3::hash(bytes).to_hex().to_string()
}

/// The content hash of a file with contents `bytes`: its BLAKE3 hash in hexadecimal.
pub fn file_hash(bytes: &[u8]) -> (r: String)
    ensures
        r@ == blake3_hex(bytes@),
        r@.len() == 64,
        forall|i: int| 0 <= i < r@.len() ==> is_hex_digit(#[trigger] r@[i]),
{
    blake3_hash_hex(bytes)
}

/// A file that the index holds, with the content hash it was indexed with.
pub struct StoredFile {
    pub path: String,
    pub hash: String,
}

/// The stored files among `docs` (each the path and the hash that a document of the
/// index holds, either possibly missing): those with both, in order.
pub open spec fn stored_of(docs: Seq<(Option<String>, Option<String>)>) -> Seq<(Seq<char>, Seq<char>)>
    decreases docs.len(),
{
    if docs.len() == 0 {
        seq![]
    } else {
        let rest = stored_of(docs.drop_last());
        match docs.last() {
            (Some(p), Some(h)) => rest.push((p@, h@)),
            _ => rest,
        }
    }
}

/// The paths and hashes of stored files.
pub open spec fn entries(files: Seq<StoredFile>) -> Seq<(Seq<char>, Seq<char>)> {
    files.map_values(|f: StoredFile| (f.path@, f.hash@))
}

/// The files recorded in the index, from the path and hash of each of its documents
/// (either may be missing): the documents with both, in order.
pub fn existing_hashes(docs: &Vec<(Option<String>, Option<String>)>) -> (r: Vec<StoredFile>)
    ensures
        entries(r@) == stored_of(docs@),
{
    let mut r: Vec<StoredFile> = Vec::new();
    let mut i: usize = 0;
    while i < docs.len()
        invariant
            i <= docs.len(),
            entries(r@) == stored_of(docs@.take(i as int)),
        decreases docs.len() - i,
    {
        assert(docs@.take(i + 1).drop_last() =~= docs@.take(i as int));
        assert(docs@.take(i + 1).last() == docs@[i as int]);
        match &docs[i] {
            (Some(p), Some(h)) => {
                r.push(StoredFile { path: p.clone(), hash: h.clone() });
            },
            _ => {},
        }
        i += 1;
        assert(entries(r@) =~= stored_of(docs@.take(i as int)));
    }
    assert(docs@.take(i as int) =~= docs@);
    r
}


/// The hash that the stored entries `es` give for `path`: that of the last entry for it
/// (an entry read later replaces an earlier one), or `None` when there is none.
pub open spec fn stored_hash(es: Seq<(Seq<char>, Seq<char>)>, path: Seq<char>) -> Option<Seq<char>>
    decreases es.len(),
{
    if es.len() == 0 {
        None
    } else if es.last().0 == path {
        Some(es.last().1)
    } else {
        stored_hash(es.drop_last(), path)
    }
}

/// What indexing does with a readable file.
#[derive(PartialEq, Eq, Structural, Clone, Copy, Debug)]
pub enum FileAction {
    /// The index holds the file with the same content hash: nothing to do.
    Unchanged,
    /// The index holds the file with another hash: its document is replaced.
    Updated,
    /// The index does not hold the file: a document is added.
    Added,
}

/// The action for a readable file at `path` whose content hash is `hash`.
pub open spec fn classify(es: Seq<(Seq<char>, Seq<char>)>, path: Seq<char>, hash: Seq<char>) -> FileAction {
    match stored_hash(es, path) {
        Some(h) => if h == hash {
            FileAction::Unchanged
        } else {
            FileAction::Updated
        },
        None => FileAction::Added,
    }
}

/// How many of the `recorded` files (path and hash) get the action `a`.
pub open spec fn count_action(
    es: Seq<(Seq<char>, Seq<char>)>,
    recorded: Seq<(Seq<char>, Seq<char>)>,
    a: FileAction,
) -> nat
    decreases recorded.len(),
{
    if recorded.len() == 0 {
        0
    } else {
        count_action(es, recorded.drop_last(), a) + if classify(
            es,
            recorded.last().0,
            recorded.last().1,
        ) == a {
            1nat
        } else {
            0nat
        }
    }
}

/// Whether `x` is one of the texts of `s`.
pub open spec fn holds(s: Seq<Seq<char>>, x: Seq<char>) -> bool {
    exists|i: int| 0 <= i < s.len() && s[i] == x
}

/// The stored paths that were not seen, each once, in the order in which the index
/// first lists them.
pub open spec fn stale_of(es: Seq<(Seq<char>, Seq<char>)>, seen: Seq<Seq<char>>) -> Seq<Seq<char>>
    decreases es.len(),
{
    if es.len() == 0 {
        seq![]
    } else {
        let rest = stale_of(es.drop_last(), seen);
        let p = es.last().0;
        if holds(seen, p) || holds(rest, p) {
            rest
        } else {
            rest.push(p)
        }
    }
}

/// What an indexing pass has met so far: the readable files (their paths, and, as a
/// ghost, their paths and hashes) and how many of them were added, updated or left
/// unchanged.
struct Tally {
    seen: Vec<String>,
    seen_set: StringHashSet,
    added: usize,
    updated: usize,
    unchanged: usize,
    recorded: Ghost<Seq<(Seq<char>, Seq<char>)>>,
}

impl Tally {
    /// Records one more file, at `path` with hash `hash`, which gets the action `a`.
    fn push(&mut self, path: String, hash: &String, a: FileAction)
        requires
            old(self).seen@.len() < usize::MAX,
            old(self).added < usize::MAX,
            old(self).updated < usize::MAX,
            old(self).unchanged < usize::MAX,
        ensures
            final(self).seen@ == old(self).seen@.push(path),
            final(self).seen_set@ == old(self).seen_set@.insert(path@),
            final(self).recorded@ == old(self).recorded@.push((path@, hash@)),
            final(self).added == old(self).added + if a == FileAction::Added {
                1int
            } else {
                0int
            },
            final(self).updated == old(self).updated + if a == FileAction::Updated {
                1int
            } else {
                0int
            },
            final(self).unchanged == old(self).unchanged + if a == FileAction::Unchanged {
                1int
            } else {
                0int
            },
    {
        let ghost entry = (path@, hash@);
        self.seen_set.insert(path.clone());
        self.seen.push(path);
        self.recorded = Ghost(self.recorded@.push(entry));
        match a {
            FileAction::Added => self.added = self.added + 1,
            FileAction::Updated => self.updated = self.updated + 1,
            FileAction::Unchanged => self.unchanged = self.unchanged + 1,
        }
    }
}

/// The state of one indexing pass over a folder: the files the index held when the
/// pass began (with their hashes by path), and what the pass has met so far. Its
/// invariant: the hashes by path are those the stored files give, and the counters
/// agree with the files met.
pub struct IndexRun {
    stored: Vec<StoredFile>,
    by_path: StringHashMap<String>,
    tally: Tally,
}

impl IndexRun {
    /// The entries (path and hash) of the files the index held when the pass began.
    pub closed spec fn stored_entries(&self) -> Seq<(Seq<char>, Seq<char>)> {
        entries(self.stored@)
    }

    /// The readable files met so far (path and hash), in the order they were met.
    pub closed spec fn recorded(&self) -> Seq<(Seq<char>, Seq<char>)> {
        self.tally.recorded@
    }

    /// The paths of the files met so far.
    pub open spec fn seen_paths(&self) -> Seq<Seq<char>> {
        self.recorded().map_values(|e: (Seq<char>, Seq<char>)| e.0)
    }

    #[verifier::type_invariant]
    spec fn counted(&self) -> bool {
        let t = self.tally;
        &&& forall|k: Seq<char>|
            #[trigger] self.by_path@.contains_key(k) == stored_hash(entries(self.stored@), k) is Some
        &&& forall|k: Seq<char>|
            #[trigger] self.by_path@.contains_key(k) ==> stored_hash(entries(self.stored@), k)
                == Some(self.by_path@[k]@)
        &&& forall|k: Seq<char>| #[trigger] t.seen_set@.contains(k) == holds(string_views(t.seen@), k)
        &&& t.seen@.len() == t.recorded@.len()
        &&& forall|i: int| 0 <= i < t.seen@.len() ==> #[trigger] t.seen@[i]@ == t.recorded@[i].0
        &&& t.added == count_action(entries(self.stored@), t.recorded@, FileAction::Added)
        &&& t.updated == count_action(entries(self.stored@), t.recorded@, FileAction::Updated)
        &&& t.unchanged == count_action(entries(self.stored@), t.recorded@, FileAction::Unchanged)
    }

    /// A pass that starts from the files `stored` that the index holds.
    pub fn new(stored: Vec<StoredFile>) -> (r: IndexRun)
        ensures
            r.stored_entries() == entries(stored@),
            r.recorded() == Seq::<(Seq<char>, Seq<char>)>::empty(),
    {
        let ghost es = entries(stored@);
        let mut by_path: StringHashMap<String> = StringHashMap::new();
        let mut i: usize = 0;
        while i < stored.len()
            invariant
                i <= stored@.len(),
                es == entries(stored@),
                forall|k: Seq<char>|
                    #[trigger] by_path@.contains_key(k) == stored_hash(es.take(i as int), k) is Some,
                forall|k: Seq<char>|
                    #[trigger] by_path@.contains_key(k) ==> stored_hash(es.take(i as int), k)
                        == Some(by_path@[k]@),
            decreases stored.len() - i,
        {
            assert(es.take(i + 1).drop_last() =~= es.take(i as int));
            assert(es.take(i + 1).last() == (stored@[i as int].path@, stored@[i as int].hash@));
            by_path.insert(stored[i].path.clone(), stored[i].hash.clone());
            i += 1;
        }
        assert(es.take(i as int) =~= es);
        IndexRun {
            stored,
            by_path,
            tally: Tally {
                seen: Vec::new(),
                seen_set: StringHashSet::new(),
                added: 0,
                updated: 0,
                unchanged: 0,
                recorded: Ghost(Seq::empty()),
            },
        }
    }

    /// How many readable files the pass has met.
    pub fn met_count(&self) -> (r: usize)
        ensures
            r == self.recorded().len(),
    {
        proof {
            use_type_invariant(self);
        }
        self.tally.seen.len()
    }

    /// The hash stored for `path`, if any.
    fn lookup(&self, path: &String) -> (r: Option<&String>)
        ensures
            r matches Some(h) ==> stored_hash(self.stored_entries(), path@) == Some(h@),
            r is None ==> stored_hash(self.stored_entries(), path@) is None,
    {
        proof {
            use_type_invariant(self);
        }
        self.by_path.get(path.as_str())
    }

    /// Records a readable file at `path` with content hash `hash` and tells what to do
    /// with it: nothing when the index holds it with the same hash, replace its document
    /// when the hash differs, add one when the index does not hold it.
    pub fn record_file(&mut self, path: String, hash: &String) -> (a: FileAction)
        requires
            old(self).recorded().len() < usize::MAX,
        ensures
            a == classify(old(self).stored_entries(), path@, hash@),
            final(self).stored_entries() == old(self).stored_entries(),
            final(self).recorded() == old(self).recorded().push((path@, hash@)),
    {
        proof {
            use_type_invariant(&*self);
        }
        let ghost rec = self.tally.recorded@;
        let ghost es = self.stored_entries();
        let a = match self.lookup(&path) {
            Some(h) => if *h == *hash {
                FileAction::Unchanged
            } else {
                FileAction::Updated
            },
            None => FileAction::Added,
        };
        proof {
            law_counts_add_up(es, rec);
            assert(rec.push((path@, hash@)).drop_last() =~= rec);
        }
        let mut t = Tally {
            seen: Vec::new(),
            seen_set: StringHashSet::new(),
            added: 0,
            updated: 0,
            unchanged: 0,
            recorded: Ghost(Seq::empty()),
        };
        std::mem::swap(&mut t, &mut self.tally);
        let ghost old_seen = t.seen@;
        let ghost p = path@;
        t.push(path, hash, a);
        proof {
            assert(string_views(t.seen@) =~= string_views(old_seen).push(p));
            assert forall|k: Seq<char>| #[trigger] t.seen_set@.contains(k) == holds(
                string_views(t.seen@),
                k,
            ) by {
                let sv = string_views(t.seen@);
                let ov = string_views(old_seen);
                if holds(ov, k) {
                    let q = choose|q: int| 0 <= q < ov.len() && ov[q] == k;
                    assert(sv[q] == k);
                }
                if holds(sv, k) {
                    let q = choose|q: int| 0 <= q < sv.len() && sv[q] == k;
                    if q < ov.len() {
                        assert(ov[q] == k);
                    }
                }
                if k == p {
                    assert(sv[ov.len() as int] == k);
                }
            }
            assert forall|i: int| 0 <= i < t.seen@.len() implies #[trigger] t.seen@[i]@
                == t.recorded@[i].0 by {
                if i < old_seen.len() {
                    assert(t.seen@[i] == old_seen[i]);
                }
            }
        }
        self.tally = t;
        a
    }

    /// The stored paths that this pass has not met (files that are gone or no longer
    /// readable), each once: their documents are to be removed.
    pub fn stale_paths(&self) -> (r: Vec<String>)
        ensures
            string_views(r@) == stale_of(self.stored_entries(), self.seen_paths()),
    {
        proof {
            use_type_invariant(self);
        }
        let ghost es = self.stored_entries();
        let ghost seen = self.seen_paths();
        assert(seen =~= string_views(self.tally.seen@));
        let mut r: Vec<String> = Vec::new();
        let mut listed = StringHashSet::new();
        let mut i: usize = 0;
        while i < self.stored.len()
            invariant
                i <= self.stored@.len(),
                es == self.stored_entries(),
                seen == string_views(self.tally.seen@),
                forall|k: Seq<char>| #[trigger] self.tally.seen_set@.contains(k) == holds(seen, k),
                forall|k: Seq<char>| #[trigger] listed@.contains(k) == holds(string_views(r@), k),
                string_views(r@) == stale_of(es.take(i as int), seen),
            decreases self.stored.len() - i,
        {
            let p = &self.stored[i].path;
            let ghost rv = string_views(r@);
            assert(es.take(i + 1).drop_last() =~= es.take(i as int));
            assert(es.take(i + 1).last().0 == p@);
            let in_seen = self.tally.seen_set.contains(p.as_str());
            let in_r = listed.contains(p.as_str());
            assert(in_seen == holds(seen, p@));
            assert(in_r == holds(rv, p@));
            if !in_seen && !in_r {
                r.push(p.clone());
                listed.insert(p.clone());
                assert(string_views(r@) =~= rv.push(p@));
                assert forall|k: Seq<char>| #[trigger] listed@.contains(k) == holds(
                    string_views(r@),
                    k,
                ) by {
                    let sv = string_views(r@);
                    if holds(rv, k) {
                        let q = choose|q: int| 0 <= q < rv.len() && rv[q] == k;
                        assert(sv[q] == k);
                    }
                    if holds(sv, k) {
                        let q = choose|q: int| 0 <= q < sv.len() && sv[q] == k;
                        if q < rv.len() {
                            assert(rv[q] == k);
                        }
                    }
                    if k == p@ {
                        assert(sv[rv.len() as int] == k);
                    }
                }
            }
            i += 1;
        }
        assert(es.take(i as int) =~= es);
        r
    }

    /// How many files were added, updated and left unchanged.
    pub fn counts(&self) -> (r: (usize, usize, usize))
        ensures
            r.0 == count_action(self.stored_entries(), self.recorded(), FileAction::Added),
            r.1 == count_action(self.stored_entries(), self.recorded(), FileAction::Updated),
            r.2 == count_action(self.stored_entries(), self.recorded(), FileAction::Unchanged),
    {
        proof {
            use_type_invariant(self);
        }
        (self.tally.added, self.tally.updated, self.tally.unchanged)
    }
}

/// Every readable file met is counted once: the added, updated and unchanged counts
/// add up to the number of files met.
pub proof fn law_counts_add_up(es: Seq<(Seq<char>, Seq<char>)>, recorded: Seq<(Seq<char>, Seq<char>)>)
    ensures
        count_action(es, recorded, FileAction::Added) + count_action(
            es,
            recorded,
            FileAction::Updated,
        ) + count_action(es, recorded, FileAction::Unchanged) == recorded.len(),
    decreases recorded.len(),
{
    if recorded.len() > 0 {
        law_counts_add_up(es, recorded.drop_last());
    }
}


/// Indexing a folder again when no file has changed adds and updates nothing: when
/// every file met has the hash the index holds for it, all of them are unchanged.
pub proof fn law_nothing_changed(es: Seq<(Seq<char>, Seq<char>)>, recorded: Seq<(Seq<char>, Seq<char>)>)
    requires
        forall|i: int|
            0 <= i < recorded.len() ==> stored_hash(es, (#[trigger] recorded[i]).0) == Some(
                recorded[i].1,
            ),
    ensures
        count_action(es, recorded, FileAction::Added) == 0,
        count_action(es, recorded, FileAction::Updated) == 0,
        count_action(es, recorded, FileAction::Unchanged) == recorded.len(),
    decreases recorded.len(),
{
    if recorded.len() > 0 {
        let init = recorded.drop_last();
        assert forall|i: int| 0 <= i < init.len() implies stored_hash(es, (#[trigger] init[i]).0)
            == Some(init[i].1) by {
            assert(init[i] == recorded[i]);
        }
        law_nothing_changed(es, init);
        assert(recorded[recorded.len() - 1] == recorded.last());
    }
}

/// The stored hash for `path` is `h` when the entries hold `path` and every entry for it
/// has hash `h`.
proof fn lemma_stored_hash_of(es: Seq<(Seq<char>, Seq<char>)>, path: Seq<char>, h: Seq<char>)
    requires
        exists|i: int| 0 <= i < es.len() && #[trigger] es[i].0 == path,
        forall|i: int| 0 <= i < es.len() && #[trigger] es[i].0 == path ==> es[i].1 == h,
    ensures
        stored_hash(es, path) == Some(h),
    decreases es.len(),
{
    let last = es.len() - 1;
    if es[last].0 != path {
        let init = es.drop_last();
        let i = choose|i: int| 0 <= i < es.len() && #[trigger] es[i].0 == path;
        assert(init[i] == es[i]);
        assert forall|k: int| 0 <= k < init.len() && #[trigger] init[k].0 == path implies init[k].1
            == h by {
            assert(init[k] == es[k]);
        }
        lemma_stored_hash_of(init, path, h);
    }
}

/// A second pass over files that have not changed changes nothing. Let the index hold,
/// in any order, exactly one document for each file the first pass met, with the
/// file's path and hash (what the actions of the first pass leave behind); a pass that
/// meets the same files with the same hashes then counts all of them unchanged, adds
/// and updates none, and finds no stale document.
pub proof fn law_second_pass_unchanged(
    recorded: Seq<(Seq<char>, Seq<char>)>,
    after: Seq<(Seq<char>, Seq<char>)>,
)
    requires
        forall|i: int, j: int|
            0 <= i < j < recorded.len() ==> (#[trigger] recorded[i]).0 != (#[trigger] recorded[j]).0,
        forall|x: (Seq<char>, Seq<char>)| after.contains(x) <==> recorded.contains(x),
    ensures
        count_action(after, recorded, FileAction::Added) == 0,
        count_action(after, recorded, FileAction::Updated) == 0,
        count_action(after, recorded, FileAction::Unchanged) == recorded.len(),
        stale_of(after, recorded.map_values(|e: (Seq<char>, Seq<char>)| e.0)).len() == 0,
{
    assert forall|i: int| 0 <= i < recorded.len() implies stored_hash(
        after,
        (#[trigger] recorded[i]).0,
    ) == Some(recorded[i].1) by {
        assert(recorded.contains(recorded[i]));
        assert(after.contains(recorded[i]));
        let k = choose|k: int| 0 <= k < after.len() && after[k] == recorded[i];
        assert(after[k].0 == recorded[i].0);
        assert forall|m: int| 0 <= m < after.len() && #[trigger] after[m].0 == recorded[i].0
            implies after[m].1 == recorded[i].1 by {
            assert(after.contains(after[m]));
            assert(recorded.contains(after[m]));
            let q = choose|q: int| 0 <= q < recorded.len() && recorded[q] == after[m];
            if q < i {
                assert(recorded[q].0 != recorded[i].0);
            } else if q > i {
                assert(recorded[i].0 != recorded[q].0);
            }
        }
        lemma_stored_hash_of(after, recorded[i].0, recorded[i].1);
    }
    law_nothing_changed(after, recorded);
    let seen = recorded.map_values(|e: (Seq<char>, Seq<char>)| e.0);
    law_stale_paths(after, seen);
    let stale = stale_of(after, seen);
    if stale.len() > 0 {
        let x = stale[0];
        assert(holds(stale, x));
        let i = choose|i: int| 0 <= i < after.len() && #[trigger] after[i].0 == x;
        assert(after.contains(after[i]));
        assert(recorded.contains(after[i]));
        let q = choose|q: int| 0 <= q < recorded.len() && recorded[q] == after[i];
        assert(seen[q] == x);
        assert(holds(seen, x));
    }
}

/// The stale paths are exactly the stored paths that the pass did not meet, each
/// listed once: every document of the index is either for a file met again or
/// removed.
pub proof fn law_stale_paths(es: Seq<(Seq<char>, Seq<char>)>, seen: Seq<Seq<char>>)
    ensures
        forall|x: Seq<char>|
            #![trigger holds(stale_of(es, seen), x)]
            holds(stale_of(es, seen), x) <==> (exists|i: int| 0 <= i < es.len() && #[trigger] es[i].0 == x)
                && !holds(seen, x),
        forall|i: int, j: int|
            0 <= i < j < stale_of(es, seen).len() ==> stale_of(es, seen)[i] != stale_of(
                es,
                seen,
            )[j],
    decreases es.len(),
{
    if es.len() > 0 {
        let init = es.drop_last();
        law_stale_paths(init, seen);
        let rest = stale_of(init, seen);
        let p = es.last().0;
        let out = stale_of(es, seen);
        assert forall|x: Seq<char>| #![trigger holds(out, x)] holds(out, x) <==> (exists|i: int| 0 <= i < es.len() && #[trigger] es[i].0 == x)
            && !holds(seen, x) by {
            if holds(out, x) {
                let k = choose|k: int| 0 <= k < out.len() && out[k] == x;
                if k < rest.len() {
                    assert(out[k] == rest[k]);
                    assert(holds(rest, x));
                    let i = choose|i: int| 0 <= i < init.len() && #[trigger] init[i].0 == x;
                    assert(es[i] == init[i]);
                } else {
                    assert(x == p);
                    assert(es[es.len() - 1].0 == x);
                }
            }
            if (exists|i: int| 0 <= i < es.len() && #[trigger] es[i].0 == x) && !holds(seen, x) {
                let i = choose|i: int| 0 <= i < es.len() && #[trigger] es[i].0 == x;
                if i < init.len() {
                    assert(init[i] == es[i]);
                    assert(holds(rest, x));
                    let k = choose|k: int| 0 <= k < rest.len() && rest[k] == x;
                    assert(out[k] == x);
                } else {
                    assert(x == p);
                    if !holds(rest, p) {
                        assert(out[rest.len() as int] == x);
                    } else {
                        let k = choose|k: int| 0 <= k < rest.len() && rest[k] == x;
                        assert(out[k] == x);
                    }
                }
            }
        }
    }
}

/// The paths of the search hits, in rank order, from the path each hit document holds
/// (which may be missing): the hits without one are skipped.
pub open spec fn hit_paths_of(values: Seq<Option<String>>) -> Seq<Seq<char>>
    decreases values.len(),
{
    if values.len() == 0 {
        seq![]
    } else {
        let rest = hit_paths_of(values.drop_last());
        match values.last() {
            Some(p) => rest.push(p@),
            None => rest,
        }
    }
}

/// The paths of the search hits, in rank order, skipping hits whose document holds no
/// path.
pub fn hit_paths(values: &Vec<Option<String>>) -> (r: Vec<String>)
    ensures
        string_views(r@) == hit_paths_of(values@),
{
    let mut r: Vec<String> = Vec::new();
    let mut i: usize = 0;
    while i < values.len()
        invariant
            i <= values.len(),
            string_views(r@) == hit_paths_of(values@.take(i as int)),
        decreases values.len() - i,
    {
        assert(values@.take(i + 1).drop_last() =~= values@.take(i as int));
        assert(values@.take(i + 1).last() == values@[i as int]);
        let ghost before = string_views(r@);
        match &values[i] {
            Some(p) => {
                r.push(p.clone());
                assert(string_views(r@) =~= before.push(p@));
            },
            None => {},
        }
        i += 1;
    }
    assert(values@.take(i as int) =~= values@);
    r
}

} // verus!
