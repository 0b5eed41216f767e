use vstd::prelude::*;

use crate::chunker::{
    chunks, finish, keep_nonempty, lemma_sentence_len_bounds, overlap_tail_of, overlap_window,
    pack, pack_step, sentence_len, sentences, space_pos, OVERLAP, TARGET_CHUNK_SIZE,
};
use crate::text::{
    clean, is_ws, lemma_clean_subrange, lemma_normalize_clean, lemma_trim_end_take,
    lemma_trim_shape, lemma_trim_start_shape, lemma_trim_start_skip, normalize, trim, words,
};

verus! {

/// `t` is the end of `s`.
pub open spec fn is_suffix(t: Seq<char>, s: Seq<char>) -> bool {
    t.len() <= s.len() && s.skip(s.len() - t.len()) == t
}

/// `t` is the start of `s`.
pub open spec fn is_prefix(t: Seq<char>, s: Seq<char>) -> bool {
    t.len() <= s.len() && s.take(t.len() as int) == t
}

/// `w` holds a space.
pub open spec fn has_space(w: Seq<char>) -> bool {
    exists|i: int| 0 <= i < w.len() && w[i] == ' '
}

/// `t` carries `prev` over into `next`: it is an end of `prev` of at most `OVERLAP`
/// characters that starts at a whole word of `prev` (at its start, or after a space);
/// when it is not empty, `next` starts with it and a space; and it is empty only when
/// the last `OVERLAP` characters of `prev` hold no space.
pub open spec fn tail_link(t: Seq<char>, prev: Seq<char>, next: Seq<char>) -> bool {
    &&& t.len() <= OVERLAP
    &&& is_suffix(t, prev)
    &&& (t.len() == 0 || t.len() == prev.len() || prev[prev.len() - t.len() - 1] == ' ')
    &&& (t.len() > 0 ==> is_prefix(t + seq![' '], next))
    &&& (has_space(overlap_window(prev)) ==> t.len() > 0)
}

/// `next` starts with the overlap of `prev`: a word-aligned end of `prev` of at most
/// `OVERLAP` characters and a space, which is missing only when the last `OVERLAP`
/// characters of `prev` hold no space.
pub open spec fn overlaps(prev: Seq<char>, next: Seq<char>) -> bool {
    exists|t: Seq<char>| #[trigger] tail_link(t, prev, next)
}

/// `o`, a space and `s`: a sentence after an overlap.
pub open spec fn after_overlap(o: Seq<char>, s: Seq<char>) -> Seq<char> {
    o + seq![' '] + s
}

/// The chunk before the `j`-th of `cs`, when there is one.
pub open spec fn prev_chunk(cs: Seq<Seq<char>>, j: int) -> Option<Seq<char>> {
    if j > 0 {
        Some(cs[j - 1])
    } else {
        None
    }
}

/// `c` is the sentence `s`, alone or after the overlap carried over from the chunk
/// before it (`prev`, when there is one) and a space.
pub open spec fn one_sentence(c: Seq<char>, prev: Option<Seq<char>>, s: Seq<char>) -> bool {
    ||| c == s
    ||| prev matches Some(p) && exists|t: Seq<char>|
        #[trigger] tail_link(t, p, c) && c == after_overlap(t, s)
}

/// `c` is no longer than `TARGET_CHUNK_SIZE`, or it is one sentence of `ss` (after the
/// overlap of the chunk before it, `prev`): a chunk goes past the target only to keep a
/// sentence whole.
pub open spec fn sized_chunk(c: Seq<char>, prev: Option<Seq<char>>, ss: Seq<Seq<char>>) -> bool {
    ||| c.len() <= TARGET_CHUNK_SIZE
    ||| exists|j: int| 0 <= j < ss.len() && one_sentence(c, prev, #[trigger] ss[j])
}

/// Not empty, in normal form, and without whitespace at either end.
pub open spec fn good_piece(t: Seq<char>) -> bool {
    &&& t.len() > 0
    &&& clean(t)
    &&& !is_ws(t[0])
    &&& !is_ws(t.last())
}

proof fn lemma_sized_grow(
    c: Seq<char>,
    prev: Option<Seq<char>>,
    init: Seq<Seq<char>>,
    ss: Seq<Seq<char>>,
)
    requires
        sized_chunk(c, prev, init),
        init.len() <= ss.len(),
        forall|j: int| 0 <= j < init.len() ==> init[j] == ss[j],
    ensures
        sized_chunk(c, prev, ss),
{
    if c.len() > TARGET_CHUNK_SIZE {
        let j = choose|j: int| 0 <= j < init.len() && one_sentence(c, prev, #[trigger] init[j]);
        assert(init[j] == ss[j]);
    }
}

/// Every sentence of a text in normal form is a good piece; a non-empty text in
/// normal form that starts with a non-whitespace character has a sentence.
proof fn lemma_sentences_good(x: Seq<char>)
    requires
        clean(x),
    ensures
        forall|j: int| 0 <= j < sentences(x).len() ==> good_piece(#[trigger] sentences(x)[j]),
        x.len() > 0 && !is_ws(x[0]) ==> sentences(x).len() > 0,
    decreases x.len(),
{
    if x.len() > 0 {
        lemma_sentence_len_bounds(x);
        let k = sentence_len(x) as int;
        let head = x.take(k);
        lemma_clean_subrange(x, 0, k);
        let ab = lemma_trim_shape(head);
        lemma_clean_subrange(head, ab.0, ab.1);
        lemma_clean_subrange(x, k, x.len() as int);
        assert(x.subrange(k, x.len() as int) =~= x.skip(k));
        lemma_sentences_good(x.skip(k));
        let ss = sentences(x);
        let first = keep_nonempty(trim(head));
        assert(ss == first + sentences(x.skip(k)));
        assert forall|j: int| 0 <= j < ss.len() implies good_piece(#[trigger] ss[j]) by {
            if j < first.len() {
                assert(ss[j] == trim(head));
            } else {
                assert(ss[j] == sentences(x.skip(k))[j - first.len()]);
            }
        }
        if !is_ws(x[0]) {
            assert(head[0] == x[0]);
            assert(trim(head).len() > 0);
        }
    }
}

proof fn lemma_space_pos(w: Seq<char>)
    ensures
        space_pos(w) <= w.len(),
        space_pos(w) < w.len() ==> w[space_pos(w) as int] == ' ',
        forall|i: int| 0 <= i < space_pos(w) ==> #[trigger] w[i] != ' ',
    decreases w.len(),
{
    if w.len() > 0 && w[0] != ' ' {
        lemma_space_pos(w.drop_first());
        assert forall|i: int| 0 <= i < space_pos(w) implies #[trigger] w[i] != ' ' by {
            if i > 0 {
                assert(w[i] == w.drop_first()[i - 1]);
            }
        }
    }
}

/// The overlap tail of a non-empty text in normal form that ends with a
/// non-whitespace character: at most `OVERLAP` characters that end the text (and its
/// trimmed form), in normal form, and starting and ending with a non-whitespace
/// character when not empty.
proof fn lemma_tail_shape(cur: Seq<char>)
    requires
        cur.len() > 0,
        clean(cur),
        !is_ws(cur.last()),
    ensures
        overlap_tail_of(cur).len() <= OVERLAP,
        is_suffix(overlap_tail_of(cur), cur),
        is_suffix(overlap_tail_of(cur), trim(cur)),
        clean(overlap_tail_of(cur)),
        overlap_tail_of(cur).len() > 0 ==> !is_ws(overlap_tail_of(cur)[0]) && !is_ws(
            overlap_tail_of(cur).last(),
        ),
{
    let n = cur.len() as int;
    let st: int = if n <= OVERLAP {
        0
    } else {
        n - OVERLAP
    };
    let w = overlap_window(cur);
    assert(w =~= cur.skip(st));
    lemma_space_pos(w);
    let p = space_pos(w) as int;
    let tail = overlap_tail_of(cur);
    let from: int = if p < w.len() {
        st + p + 1
    } else if n <= OVERLAP || cur[n - OVERLAP - 1] == ' ' {
        st
    } else {
        n
    };
    assert(tail =~= cur.skip(from));
    assert(cur.skip(from) =~= cur.subrange(from, n));
    lemma_clean_subrange(cur, from, n);
    if tail.len() > 0 {
        assert(tail[0] == cur[from]);
        if p < w.len() {
            assert(cur[st + p] == w[p]);
            assert(cur[st + p] == ' ');
        } else {
            assert(w[0] == cur[from]);
        }
        assert(!is_ws(tail[0]));
        assert(tail.last() == cur.last());
    }
    let ab = lemma_trim_shape(cur);
    if ab.1 < n {
        assert(is_ws(cur[n - 1]));
    }
    assert(ab.1 == n);
    if tail.len() > 0 {
        if from < ab.0 {
            assert(is_ws(cur[from]));
        }
    }
    assert(trim(cur).skip(trim(cur).len() - tail.len()) =~= tail);
}

/// The overlap tail of a non-empty text in normal form that ends with a
/// non-whitespace character starts at a whole word of the trimmed text, and it is not
/// empty when the last `OVERLAP` characters of the trimmed text hold a space.
proof fn lemma_tail_word(cur: Seq<char>)
    requires
        cur.len() > 0,
        clean(cur),
        !is_ws(cur.last()),
    ensures
        ({
            let r = overlap_tail_of(cur);
            let tr = trim(cur);
            &&& r.len() == 0 || r.len() == tr.len() || tr[tr.len() - r.len() - 1] == ' '
            &&& has_space(overlap_window(tr)) ==> r.len() > 0
        }),
{
    let n = cur.len() as int;
    let r = overlap_tail_of(cur);
    let ab = lemma_trim_shape(cur);
    let a = ab.0;
    assert(cur[n - 1] == cur.last());
    if ab.1 < n {
        assert(is_ws(cur[n - 1]));
    }
    if a >= 2 {
        assert(is_ws(cur[0]));
        assert(is_ws(cur[1]));
        assert(cur[0] == ' ');
        assert(cur[1] != ' ');
    }
    let tr = trim(cur);
    assert(tr =~= cur.skip(a));
    law_overlap_tail(cur);
    lemma_tail_shape(cur);
    if r.len() > 0 && r.len() != tr.len() {
        if r.len() == n {
            assert(cur.skip(0) =~= cur);
            assert(r[0] == cur[0]);
            if a > 0 {
                assert(is_ws(cur[0]));
            }
        } else {
            let k = n - r.len() - 1;
            assert(cur[k] == ' ');
            if k >= a {
                assert(tr[k - a] == cur[k]);
            }
        }
    }
    let w = overlap_window(cur);
    let wt = overlap_window(tr);
    if has_space(wt) {
        let i = choose|i: int| 0 <= i < wt.len() && wt[i] == ' ';
        let st: int = if n <= OVERLAP {
            0
        } else {
            n - OVERLAP
        };
        let m = tr.len() as int;
        let stt: int = if m <= OVERLAP {
            0
        } else {
            m - OVERLAP
        };
        assert(w =~= cur.skip(st));
        assert(wt =~= tr.skip(stt));
        assert(wt[i] == cur[a + stt + i]);
        assert(w[a + stt + i - st] == ' ');
        lemma_space_pos(w);
        let p = space_pos(w) as int;
        if p == w.len() {
            assert(w[a + stt + i - st] != ' ');
        }
        assert(w[w.len() - 1] == cur[n - 1]);
        assert(r =~= w.skip(p + 1));
    }
}

/// Appending a space and a good piece to a text in normal form that does not end in
/// whitespace keeps it in normal form.
proof fn lemma_clean_append(a: Seq<char>, b: Seq<char>)
    requires
        clean(a),
        a.len() == 0 || !is_ws(a.last()),
        good_piece(b),
    ensures
        clean(a + seq![' '] + b),
        (a + seq![' '] + b).last() == b.last(),
{
    let x = a + seq![' '] + b;
    let na = a.len() as int;
    assert forall|i: int| 0 <= i < x.len() && is_ws(#[trigger] x[i]) implies x[i] == ' ' by {
        if i < na {
            assert(x[i] == a[i]);
        } else if i > na {
            assert(x[i] == b[i - na - 1]);
        }
    }
    assert forall|i: int| 0 <= i < x.len() - 1 && #[trigger] x[i] == ' ' implies x[i + 1]
        != ' ' by {
        if i < na - 1 {
            assert(x[i] == a[i]);
            assert(x[i + 1] == a[i + 1]);
        } else if i == na - 1 {
            assert(x[i] == a.last());
        } else if i == na {
            assert(x[i + 1] == b[0]);
        } else {
            assert(x[i] == b[i - na - 1]);
            assert(x[i + 1] == b[i - na]);
        }
    }
}

/// Trimming a text that does not end in whitespace, followed by a space and a good
/// piece, trims only the text.
proof fn lemma_trim_join(a: Seq<char>, s: Seq<char>)
    requires
        a.len() == 0 || !is_ws(a.last()),
        good_piece(s),
    ensures
        a.len() == 0 ==> trim(a + seq![' '] + s) == s,
        a.len() > 0 ==> trim(a + seq![' '] + s) == trim(a) + seq![' '] + s,
{
    let x = a + seq![' '] + s;
    let a0 = lemma_trim_start_shape(a);
    if a0 == a.len() && a.len() > 0 {
        assert(is_ws(a[a.len() - 1]));
    }
    let lead: int = if a.len() == 0 {
        1
    } else {
        a0
    };
    assert forall|i: int| 0 <= i < lead implies is_ws(#[trigger] x[i]) by {
        if a.len() > 0 {
            assert(x[i] == a[i]);
        }
    }
    if a.len() == 0 {
        assert(x[1] == s[0]);
    } else {
        assert(x[a0] == a[a0]);
    }
    lemma_trim_start_skip(x, lead);
    let y = x.skip(lead);
    assert(y.last() == s.last());
    assert(y[y.len() - 1] == y.last());
    lemma_trim_end_take(y, y.len() as int);
    assert(y.take(y.len() as int) =~= y);
    if a.len() == 0 {
        assert(y =~= s);
    } else {
        let z = a.skip(a0);
        assert(z[z.len() - 1] == a.last());
        lemma_trim_end_take(z, z.len() as int);
        assert(z.take(z.len() as int) =~= z);
        assert(y =~= z + seq![' '] + s);
    }
}

/// The open chunk of a packing state: empty before any sentence, else in normal form and
/// ending with a non-whitespace character.
pub open spec fn cur_ok(cur: Seq<char>) -> bool {
    cur.len() > 0 ==> clean(cur) && !is_ws(cur.last())
}

/// Not empty and without whitespace at either end.
pub open spec fn good_chunk(c: Seq<char>) -> bool {
    &&& c.len() > 0
    &&& !is_ws(c[0])
    &&& !is_ws(c.last())
}

/// Every closed chunk is good, in normal form, and sized as `sized_chunk` states
/// against the sentences `ss`.
pub open spec fn all_good(cs: Seq<Seq<char>>, ss: Seq<Seq<char>>) -> bool {
    forall|j: int|
        0 <= j < cs.len() ==> good_chunk(#[trigger] cs[j]) && clean(cs[j]) && sized_chunk(
            cs[j],
            prev_chunk(cs, j),
            ss,
        )
}

/// Each closed chunk overlaps the one after it.
pub open spec fn chained(cs: Seq<Seq<char>>) -> bool {
    forall|j: int| 0 <= j < cs.len() - 1 ==> overlaps(#[trigger] cs[j], cs[j + 1])
}

/// The open chunk starts with the overlap of the last closed chunk, as `tail_link`
/// states, and that overlap does not start with whitespace.
pub open spec fn linked(cs: Seq<Seq<char>>, cur: Seq<char>) -> bool {
    cs.len() > 0 ==> exists|t: Seq<char>|
        #[trigger] tail_link(t, cs.last(), cur) && (t.len() == 0 || !is_ws(t[0]))
}

proof fn lemma_prefix_extend(t: Seq<char>, cur: Seq<char>, more: Seq<char>)
    requires
        is_prefix(t, cur),
    ensures
        is_prefix(t, cur + more),
{
    assert((cur + more).take(t.len() as int) =~= cur.take(t.len() as int));
}

/// The chunk closed from an open one: good, in normal form, not longer, and overlapped
/// by the last closed chunk when the open one is linked to it.
proof fn lemma_close_one(cs: Seq<Seq<char>>, cur: Seq<char>)
    requires
        linked(cs, cur),
        cur.len() > 0,
        cur_ok(cur),
    ensures
        trim(cur).len() > 0,
        good_chunk(trim(cur)),
        clean(trim(cur)),
        trim(cur).len() <= cur.len(),
        cs.len() > 0 ==> overlaps(cs.last(), trim(cur)),
{
    let closed = trim(cur);
    let ab = lemma_trim_shape(cur);
    lemma_clean_subrange(cur, ab.0, ab.1);
    assert(cur[cur.len() - 1] == cur.last());
    if cs.len() > 0 {
        let t = choose|t: Seq<char>|
            #[trigger] tail_link(t, cs.last(), cur) && (t.len() == 0 || !is_ws(t[0]));
        if t.len() > 0 {
            assert(cur[0] == cur.take(t.len() + 1int)[0]);
            assert((t + seq![' '])[0] == t[0]);
            assert(cur[0] == t[0]);
            assert(closed == cur);
        }
        assert(tail_link(t, cs.last(), closed));
    }
}

/// Adding a chunk that the last one overlaps keeps the chunks chained.
proof fn lemma_chain_push(cs: Seq<Seq<char>>, c: Seq<char>)
    requires
        chained(cs),
        cs.len() > 0 ==> overlaps(cs.last(), c),
    ensures
        chained(cs.push(c)),
{
    let ncs = cs.push(c);
    assert forall|j: int| 0 <= j < ncs.len() - 1 implies overlaps(#[trigger] ncs[j], ncs[j + 1]) by {
        assert(ncs[j] == cs[j]);
        if j < cs.len() - 1 {
            assert(ncs[j + 1] == cs[j + 1]);
        } else {
            assert(ncs[j + 1] == c);
        }
    }
}

/// Closing a good open chunk that the closed ones link to keeps them chained.
#[verifier::spinoff_prover]
#[verifier::rlimit(40)]
proof fn lemma_close_chained(cs: Seq<Seq<char>>, cur: Seq<char>)
    requires
        chained(cs),
        linked(cs, cur),
        cur.len() > 0,
        cur_ok(cur),
    ensures
        chained(cs.push(trim(cur))),
        trim(cur).len() > 0,
        good_chunk(trim(cur)),
        clean(trim(cur)),
        trim(cur).len() <= cur.len(),
{
    lemma_close_one(cs, cur);
    lemma_chain_push(cs, trim(cur));
}

proof fn lemma_push_good(cs: Seq<Seq<char>>, c: Seq<char>, ss: Seq<Seq<char>>)
    requires
        all_good(cs, ss),
        good_chunk(c),
        clean(c),
        sized_chunk(c, prev_chunk(cs, cs.len() as int), ss),
    ensures
        all_good(cs.push(c), ss),
{
    let ncs = cs.push(c);
    assert forall|j: int| 0 <= j < ncs.len() implies good_chunk(#[trigger] ncs[j]) && clean(ncs[j])
        && sized_chunk(ncs[j], prev_chunk(ncs, j), ss) by {
        if j > 0 {
            assert(ncs[j - 1] == cs[j - 1]);
        }
        assert(prev_chunk(ncs, j) == prev_chunk(cs, j));
        if j < cs.len() {
            assert(ncs[j] == cs[j]);
        }
    }
}

/// The open chunk, trimmed, is sized as `sized_chunk` states, after the last closed
/// chunk `cs`.
pub open spec fn cur_sized(cur: Seq<char>, cs: Seq<Seq<char>>, ss: Seq<Seq<char>>) -> bool {
    cur.len() > 0 ==> sized_chunk(trim(cur), prev_chunk(cs, cs.len() as int), ss)
}

/// The open chunk that follows a closed one: its overlap tail, a space and the
/// sentence. It is in normal form, carries the tail over as `tail_link` states, and,
/// trimmed, is the sentence alone or after the tail.
proof fn lemma_close_next(cur: Seq<char>, s: Seq<char>)
    requires
        cur.len() > 0,
        cur_ok(cur),
        good_piece(s),
    ensures
        ({
            let tail = overlap_tail_of(cur);
            let nc = tail + seq![' '] + s;
            &&& nc.len() > 0
            &&& cur_ok(nc)
            &&& tail_link(tail, trim(cur), nc)
            &&& (tail.len() == 0 || !is_ws(tail[0]))
            &&& (tail.len() == 0 ==> trim(nc) == s)
            &&& (tail.len() > 0 ==> trim(nc) == nc && nc == after_overlap(tail, s))
        }),
{
    let tail = overlap_tail_of(cur);
    let nc = tail + seq![' '] + s;
    lemma_tail_shape(cur);
    lemma_clean_append(tail, s);
    assert(nc.take(tail.len() + 1int) =~= tail + seq![' ']);
    lemma_tail_word(cur);
    lemma_trim_join(tail, s);
    if tail.len() > 0 {
        assert(tail[tail.len() - 1] == tail.last());
        let ab = lemma_trim_shape(tail);
    }
}

/// A packing step that closes the open chunk keeps every part of the packing invariant.
#[verifier::spinoff_prover]
#[verifier::rlimit(40)]
proof fn lemma_pack_close(cs: Seq<Seq<char>>, cur: Seq<char>, ss: Seq<Seq<char>>, j: int)
    requires
        0 <= j < ss.len(),
        cur_ok(cur),
        all_good(cs, ss),
        cur_sized(cur, cs, ss),
        chained(cs),
        linked(cs, cur),
        good_piece(ss[j]),
        cur.len() > 0,
        trim(cur).len() + 1 + ss[j].len() > TARGET_CHUNK_SIZE,
    ensures
        ({
            let n = pack_step((cs, cur), ss[j]);
            &&& n.1.len() > 0
            &&& cur_ok(n.1)
            &&& all_good(n.0, ss)
            &&& cur_sized(n.1, n.0, ss)
            &&& chained(n.0)
            &&& linked(n.0, n.1)
        }),
{
    let s = ss[j];
    let n = pack_step((cs, cur), s);
    let tail = overlap_tail_of(cur);
    lemma_close_next(cur, s);
    lemma_close_chained(cs, cur);
    lemma_push_good(cs, trim(cur), ss);
    assert(n.0 == cs.push(trim(cur)));
    assert(n.1 == tail + seq![' '] + s);
    assert(n.0.last() == trim(cur));
    assert(tail_link(tail, n.0.last(), n.1));
    assert(prev_chunk(n.0, n.0.len() as int) == Some(trim(cur)));
    if tail.len() > 0 {
        assert(trim(n.1) == after_overlap(tail, s));
        assert(tail_link(tail, trim(cur), trim(n.1)));
        assert(prev_chunk(n.0, n.0.len() as int) matches Some(p) && tail_link(tail, p, trim(n.1)));
    } else {
        assert(trim(n.1) == s);
    }
    assert(one_sentence(trim(n.1), prev_chunk(n.0, n.0.len() as int), ss[j]));
}

/// A packing step that adds the sentence to the open chunk keeps every part of the
/// packing invariant.
#[verifier::spinoff_prover]
#[verifier::rlimit(40)]
proof fn lemma_pack_extend(cs: Seq<Seq<char>>, cur: Seq<char>, ss: Seq<Seq<char>>, j: int)
    requires
        0 <= j < ss.len(),
        cur_ok(cur),
        all_good(cs, ss),
        cur_sized(cur, cs, ss),
        chained(cs),
        linked(cs, cur),
        good_piece(ss[j]),
        !(cur.len() > 0 && trim(cur).len() + 1 + ss[j].len() > TARGET_CHUNK_SIZE),
    ensures
        ({
            let n = pack_step((cs, cur), ss[j]);
            &&& n.1.len() > 0
            &&& cur_ok(n.1)
            &&& all_good(n.0, ss)
            &&& cur_sized(n.1, n.0, ss)
            &&& chained(n.0)
            &&& linked(n.0, n.1)
        }),
{
    let s = ss[j];
    let n = pack_step((cs, cur), s);
    assert(n.0 == cs);
    lemma_clean_append(cur, s);
    lemma_trim_join(cur, s);
    if cs.len() > 0 {
        let t = choose|t: Seq<char>|
            #[trigger] tail_link(t, cs.last(), cur) && (t.len() == 0 || !is_ws(t[0]));
        if t.len() > 0 {
            lemma_prefix_extend(t + seq![' '], cur, seq![' '] + s);
        }
        assert(cur + seq![' '] + s =~= cur + (seq![' '] + s));
        assert(tail_link(t, cs.last(), n.1));
    }
    if cur.len() == 0 {
        assert(one_sentence(trim(n.1), prev_chunk(n.0, n.0.len() as int), ss[j]));
    }
}

/// One packing step with the sentence `ss[j]` keeps every part of the packing invariant.
proof fn lemma_pack_step(cs: Seq<Seq<char>>, cur: Seq<char>, ss: Seq<Seq<char>>, j: int)
    requires
        0 <= j < ss.len(),
        cur_ok(cur),
        all_good(cs, ss),
        cur_sized(cur, cs, ss),
        chained(cs),
        linked(cs, cur),
        good_piece(ss[j]),
    ensures
        ({
            let n = pack_step((cs, cur), ss[j]);
            &&& n.1.len() > 0
            &&& cur_ok(n.1)
            &&& all_good(n.0, ss)
            &&& cur_sized(n.1, n.0, ss)
            &&& chained(n.0)
            &&& linked(n.0, n.1)
        }),
{
    if cur.len() > 0 && trim(cur).len() + 1 + ss[j].len() > TARGET_CHUNK_SIZE {
        lemma_pack_close(cs, cur, ss, j);
    } else {
        lemma_pack_extend(cs, cur, ss, j);
    }
}

/// Packing good sentences keeps the packing invariant.
proof fn lemma_pack_inv(ss: Seq<Seq<char>>)
    requires
        forall|j: int| 0 <= j < ss.len() ==> good_piece(#[trigger] ss[j]),
    ensures
        ss.len() == 0 <==> pack(ss).1.len() == 0,
        cur_ok(pack(ss).1),
        all_good(pack(ss).0, ss),
        cur_sized(pack(ss).1, pack(ss).0, ss),
        chained(pack(ss).0),
        linked(pack(ss).0, pack(ss).1),
    decreases ss.len(),
{
    if ss.len() > 0 {
        let init = ss.drop_last();
        assert forall|j: int| 0 <= j < init.len() implies good_piece(#[trigger] init[j]) by {
            assert(init[j] == ss[j]);
        }
        lemma_pack_inv(init);
        let cs = pack(init).0;
        let cur = pack(init).1;
        assert forall|k: int| 0 <= k < cs.len() implies good_chunk(#[trigger] cs[k]) && clean(cs[k])
            && sized_chunk(cs[k], prev_chunk(cs, k), ss) by {
            lemma_sized_grow(cs[k], prev_chunk(cs, k), init, ss);
        }
        if cur.len() > 0 {
            lemma_sized_grow(trim(cur), prev_chunk(cs, cs.len() as int), init, ss);
        }
        assert(good_piece(ss[ss.len() - 1]));
        lemma_pack_step(cs, cur, ss, ss.len() - 1);
    } else {
        assert(pack(ss).0 =~= Seq::<Seq<char>>::empty());
    }
}

/// The chunks of a text with their sizes, overlaps, ends and form, as the packing
/// invariant and the closing of the last chunk give them.
proof fn lemma_chunks_shape(text: Seq<char>)
    ensures
        all_good(chunks(text), sentences(normalize(text))),
        chained(chunks(text)),
        chunks(text).len() > 0 <==> (exists|i: int| 0 <= i < text.len() && !is_ws(#[trigger] text[i])),
{
    let x = normalize(text);
    lemma_normalize_clean(text);
    lemma_sentences_good(x);
    let ss = sentences(x);
    lemma_pack_inv(ss);
    let cs = pack(ss).0;
    let cur = pack(ss).1;
    let out = chunks(text);
    assert(out == finish(pack(ss)));
    if cur.len() > 0 {
        lemma_close_chained(cs, cur);
        lemma_push_good(cs, trim(cur), ss);
        assert(out == cs.push(trim(cur)));
    } else {
        assert(trim(cur) =~= cur);
        assert(out == cs);
        assert(ss.len() == 0);
        assert(out =~= Seq::<Seq<char>>::empty());
    }
    if exists|i: int| 0 <= i < text.len() && !is_ws(#[trigger] text[i]) {
        assert(x.len() > 0);
        assert(ss.len() > 0);
    } else {
        assert(x.len() == 0);
        assert(ss =~= Seq::<Seq<char>>::empty());
    }
}

/// A text has no chunks exactly when it holds nothing but whitespace.
pub proof fn law_no_chunks_iff_blank(text: Seq<char>)
    ensures
        chunks(text).len() == 0 <==> forall|i: int| 0 <= i < text.len() ==> is_ws(#[trigger] text[i]),
{
    lemma_chunks_shape(text);
}

/// Every chunk is non-empty and already trimmed: it neither starts nor ends with
/// whitespace.
pub proof fn law_chunks_trimmed(text: Seq<char>)
    ensures
        forall|j: int|
            0 <= j < chunks(text).len() ==> (#[trigger] chunks(text)[j]).len() > 0 && trim(
                chunks(text)[j],
            ) == chunks(text)[j],
{
    lemma_chunks_shape(text);
    assert forall|j: int| 0 <= j < chunks(text).len() implies (#[trigger] chunks(text)[j]).len()
        > 0 && trim(chunks(text)[j]) == chunks(text)[j] by {
        let c = chunks(text)[j];
        assert(good_chunk(c));
        assert(c[c.len() - 1] == c.last());
        let ab = lemma_trim_shape(c);
    }
}

/// Every chunk is in normal form: the plain space is the only whitespace in it, and no
/// two spaces stand next to each other.
pub proof fn law_chunks_clean(text: Seq<char>)
    ensures
        forall|j: int| 0 <= j < chunks(text).len() ==> clean(#[trigger] chunks(text)[j]),
{
    lemma_chunks_shape(text);
}

/// A chunk goes past `TARGET_CHUNK_SIZE` only to keep a sentence whole: every chunk is
/// at most `TARGET_CHUNK_SIZE` characters long, or it is a single sentence of the
/// (normalized) text, alone or after the overlap carried over from the chunk before it
/// (as `tail_link` states) and a space.
pub proof fn law_chunk_size(text: Seq<char>)
    ensures
        forall|j: int|
            0 <= j < chunks(text).len() ==> sized_chunk(
                #[trigger] chunks(text)[j],
                prev_chunk(chunks(text), j),
                sentences(normalize(text)),
            ),
{
    lemma_chunks_shape(text);
}

/// Each chunk after the first starts with the overlap of the chunk before it: an end
/// of it of at most `OVERLAP` characters that starts at a whole word, then a space.
/// There is no overlap only when the last `OVERLAP` characters of the chunk before hold
/// no space.
pub proof fn law_chunk_overlap(text: Seq<char>)
    ensures
        forall|j: int|
            0 <= j < chunks(text).len() - 1 ==> overlaps(
                #[trigger] chunks(text)[j],
                chunks(text)[j + 1],
            ),
{
    lemma_chunks_shape(text);
}

/// Chunking looks only at the words of a text: texts that differ only in their
/// whitespace give the same chunks.
pub proof fn law_chunks_ignore_whitespace(a: Seq<char>, b: Seq<char>)
    requires
        words(a) == words(b),
    ensures
        chunks(a) == chunks(b),
{
}

/// Every sentence is non-empty and already trimmed.
pub proof fn law_sentences_trimmed(text: Seq<char>)
    ensures
        forall|j: int|
            0 <= j < sentences(text).len() ==> (#[trigger] sentences(text)[j]).len() > 0 && trim(
                sentences(text)[j],
            ) == sentences(text)[j],
    decreases text.len(),
{
    if text.len() > 0 {
        lemma_sentence_len_bounds(text);
        let k = sentence_len(text) as int;
        law_sentences_trimmed(text.skip(k));
        let head = trim(text.take(k));
        let first = keep_nonempty(head);
        let ss = sentences(text);
        assert(ss == first + sentences(text.skip(k)));
        assert forall|j: int| 0 <= j < ss.len() implies (#[trigger] ss[j]).len() > 0 && trim(ss[j])
            == ss[j] by {
            if j < first.len() {
                assert(ss[j] == head);
                let ab = lemma_trim_shape(text.take(k));
                let cd = lemma_trim_shape(head);
                assert(head[head.len() - 1] == head.last());
            } else {
                assert(ss[j] == sentences(text.skip(k))[j - first.len()]);
            }
        }
    }
}

/// The overlap tail of a text is one of its ends, at most `OVERLAP` characters long,
/// and it never starts in the middle of a word: it is empty, or the whole text, or
/// the character just before it is a space.
pub proof fn law_overlap_tail(s: Seq<char>)
    ensures
        is_suffix(overlap_tail_of(s), s),
        overlap_tail_of(s).len() <= OVERLAP,
        ({
            let r = overlap_tail_of(s);
            r.len() == 0 || r.len() == s.len() || s[s.len() - r.len() - 1] == ' '
        }),
{
    let n = s.len() as int;
    let st: int = if n <= OVERLAP {
        0
    } else {
        n - OVERLAP
    };
    let w = overlap_window(s);
    assert(w =~= s.skip(st));
    lemma_space_pos(w);
    let p = space_pos(w) as int;
    if p < w.len() {
        assert(overlap_tail_of(s) =~= s.skip(st + p + 1));
        assert(s[st + p] == w[p]);
    } else if n <= OVERLAP || s[n - OVERLAP - 1] == ' ' {
        assert(overlap_tail_of(s) =~= s.skip(st));
    } else {
        assert(overlap_tail_of(s) =~= s.skip(n));
    }
}


/// `s` occurs in `x` starting at position `p`.
pub open spec fn occurs_at(s: Seq<char>, x: Seq<char>, p: int) -> bool {
    0 <= p && p + s.len() <= x.len() && x.subrange(p, p + s.len()) == s
}

/// `s` occurs somewhere in `x`.
pub open spec fn occurs_in(s: Seq<char>, x: Seq<char>) -> bool {
    exists|p: int| #[trigger] occurs_at(s, x, p)
}

/// `s` occurs in one of the chunks `cs`.
pub open spec fn in_some_chunk(s: Seq<char>, cs: Seq<Seq<char>>) -> bool {
    exists|c: int| 0 <= c < cs.len() && occurs_in(s, #[trigger] cs[c])
}

/// Every sentence packed so far is in a closed chunk or in the open one.
pub open spec fn all_kept(ss: Seq<Seq<char>>, cs: Seq<Seq<char>>, cur: Seq<char>) -> bool {
    forall|j: int| 0 <= j < ss.len() ==> in_some_chunk(#[trigger] ss[j], cs) || occurs_in(ss[j], cur)
}

proof fn lemma_occurs_extend(s: Seq<char>, x: Seq<char>, more: Seq<char>)
    requires
        occurs_in(s, x),
    ensures
        occurs_in(s, x + more),
{
    let p = choose|p: int| #[trigger] occurs_at(s, x, p);
    assert((x + more).subrange(p, p + s.len()) =~= x.subrange(p, p + s.len()));
    assert(occurs_at(s, x + more, p));
}

/// A good piece in an open chunk is still there once the chunk is trimmed.
proof fn lemma_occurs_trim(s: Seq<char>, cur: Seq<char>)
    requires
        good_piece(s),
        occurs_in(s, cur),
    ensures
        occurs_in(s, trim(cur)),
{
    let p = choose|p: int| #[trigger] occurs_at(s, cur, p);
    let ab = lemma_trim_shape(cur);
    assert(cur[p] == s[0]);
    assert(cur[p + s.len() - 1] == s[s.len() - 1]);
    if p < ab.0 {
        assert(is_ws(cur[p]));
    }
    if p + s.len() > ab.1 {
        assert(is_ws(cur[p + s.len() - 1]));
    }
    let t = trim(cur);
    assert(t.subrange(p - ab.0, p - ab.0 + s.len()) =~= cur.subrange(p, p + s.len()));
    assert(occurs_at(s, t, p - ab.0));
}

proof fn lemma_in_chunk_push(s: Seq<char>, cs: Seq<Seq<char>>, c: Seq<char>)
    requires
        in_some_chunk(s, cs),
    ensures
        in_some_chunk(s, cs.push(c)),
{
    let k = choose|k: int| 0 <= k < cs.len() && occurs_in(s, #[trigger] cs[k]);
    assert(cs.push(c)[k] == cs[k]);
}

/// Packing keeps every sentence in a chunk.
proof fn lemma_pack_keeps(ss: Seq<Seq<char>>)
    requires
        forall|j: int| 0 <= j < ss.len() ==> good_piece(#[trigger] ss[j]),
    ensures
        all_kept(ss, pack(ss).0, pack(ss).1),
    decreases ss.len(),
{
    if ss.len() > 0 {
        let init = ss.drop_last();
        let s = ss.last();
        assert forall|j: int| 0 <= j < init.len() implies good_piece(#[trigger] init[j]) by {
            assert(init[j] == ss[j]);
        }
        lemma_pack_keeps(init);
        let cs = pack(init).0;
        let cur = pack(init).1;
        let ncs = pack(ss).0;
        let ncur = pack(ss).1;
        assert(good_piece(ss[ss.len() - 1]));
        let closing = cur.len() > 0 && trim(cur).len() + 1 + s.len() > TARGET_CHUNK_SIZE;
        // the new sentence ends the open chunk
        let prefix = if closing {
            overlap_tail_of(cur) + seq![' ']
        } else {
            cur + seq![' ']
        };
        assert(ncur == prefix + s);
        assert(ncur.subrange(prefix.len() as int, ncur.len() as int) =~= s);
        assert(occurs_at(s, ncur, prefix.len() as int));
        assert forall|j: int| 0 <= j < ss.len() implies in_some_chunk(#[trigger] ss[j], ncs) || occurs_in(ss[j], ncur) by {
            if j < init.len() {
                assert(ss[j] == init[j]);
                assert(in_some_chunk(init[j], cs) || occurs_in(init[j], cur));
                if closing {
                    assert(ncs == cs.push(trim(cur)));
                    if in_some_chunk(init[j], cs) {
                        lemma_in_chunk_push(init[j], cs, trim(cur));
                    } else {
                        lemma_occurs_trim(init[j], cur);
                        assert(ncs[cs.len() as int] == trim(cur));
                    }
                } else {
                    assert(ncs == cs);
                    if occurs_in(init[j], cur) {
                        lemma_occurs_extend(init[j], cur, seq![' '] + s);
                        assert(cur + (seq![' '] + s) =~= ncur);
                    }
                }
            }
        }
    }
}

/// No sentence is lost or cut: every sentence of the (normalized) text occurs whole in
/// one of the chunks.
pub proof fn law_every_sentence_in_a_chunk(text: Seq<char>)
    ensures
        forall|j: int|
            0 <= j < sentences(normalize(text)).len() ==> in_some_chunk(
                #[trigger] sentences(normalize(text))[j],
                chunks(text),
            ),
{
    let x = normalize(text);
    lemma_normalize_clean(text);
    lemma_sentences_good(x);
    let ss = sentences(x);
    lemma_pack_keeps(ss);
    let cs = pack(ss).0;
    let cur = pack(ss).1;
    let out = chunks(text);
    assert forall|j: int| 0 <= j < ss.len() implies in_some_chunk(#[trigger] ss[j], out) by {
        assert(good_piece(ss[j]));
        if in_some_chunk(ss[j], cs) {
            if trim(cur).len() > 0 {
                lemma_in_chunk_push(ss[j], cs, trim(cur));
            }
        } else {
            lemma_occurs_trim(ss[j], cur);
            let t = trim(cur);
            let p = choose|p: int| #[trigger] occurs_at(ss[j], t, p);
            assert(t.len() > 0);
            assert(out == cs.push(t));
            assert(out[cs.len() as int] == t);
        }
    }
}


/// The whitespace characters of Unicode (the `White_Space` property), which
/// `char::is_whitespace` accepts: tab, line feed, vertical tab, form feed, carriage
/// return, space, next line, no-break space, Ogham space mark, the spaces from en quad
/// to hair space, line and paragraph separators, narrow no-break space, medium
/// mathematical space and ideographic space.
pub open spec fn unicode_white_space(c: char) -> bool {
    ||| c == '\t'
    ||| c == '\n'
    ||| c == '\u{0B}'
    ||| c == '\u{0C}'
    ||| c == '\r'
    ||| c == ' '
    ||| c == '\u{85}'
    ||| c == '\u{A0}'
    ||| c == '\u{1680}'
    ||| ('\u{2000}' <= c && c <= '\u{200A}')
    ||| c == '\u{2028}'
    ||| c == '\u{2029}'
    ||| c == '\u{202F}'
    ||| c == '\u{205F}'
    ||| c == '\u{3000}'
}

/// Chunking collapses every run of Unicode whitespace, carriage returns and line
/// breaks included, to a single plain space: the only whitespace character in a chunk
/// is `' '`.
pub proof fn law_chunks_plain_spaces(text: Seq<char>)
    ensures
        forall|j: int, i: int|
            0 <= j < chunks(text).len() && 0 <= i < chunks(text)[j].len() && unicode_white_space(
                #[trigger] chunks(text)[j][i],
            ) ==> chunks(text)[j][i] == ' ',
{
    law_chunks_clean(text);
    assert forall|j: int, i: int|
        0 <= j < chunks(text).len() && 0 <= i < chunks(text)[j].len() && unicode_white_space(
            #[trigger] chunks(text)[j][i],
        ) implies chunks(text)[j][i] == ' ' by {
        let c = chunks(text)[j];
        assert(clean(c));
        assert(is_ws(c[i]));
    }
}

} // verus!
