use vstd::prelude::*;

use crate::text::{
    char_views, chars_of, normalize, normalize_chars, slice_chars, string_of, string_views, trim,
    trim_chars,
};

verus! {

/// Target size of a chunk, in characters. A chunk may go slightly past it so that a
/// sentence is never cut in two.
pub const TARGET_CHUNK_SIZE: usize = 500;

/// How many characters from the end of one chunk are repeated at the start of the next,
/// so that an idea that falls across two chunks is not lost.
pub const OVERLAP: usize = 80;

/// Characters that end a sentence.
pub open spec fn is_terminator(c: char) -> bool {
    c == '.' || c == '!' || c == '?'
}

/// The length of the first sentence of `s`: up to and including the first terminator,
/// or all of `s` when it has none.
pub open spec fn sentence_len(s: Seq<char>) -> nat
    decreases s.len(),
{
    if s.len() == 0 {
        0
    } else if is_terminator(s[0]) {
        1
    } else {
        1 + sentence_len(s.drop_first())
    }
}

pub proof fn lemma_sentence_len_bounds(s: Seq<char>)
    ensures
        sentence_len(s) <= s.len(),
        s.len() > 0 ==> sentence_len(s) >= 1,
    decreases s.len(),
{
    if s.len() > 0 && !is_terminator(s[0]) {
        lemma_sentence_len_bounds(s.drop_first());
    }
}

/// A piece of `k` characters without a terminator, followed by a terminator at `k`
/// (or by the end of `s`), gives the length of the first sentence.
pub proof fn lemma_sentence_len_at(s: Seq<char>, k: int)
    requires
        0 <= k <= s.len(),
        forall|i: int| 0 <= i < k ==> !is_terminator(#[trigger] s[i]),
        k < s.len() ==> is_terminator(s[k]),
    ensures
        sentence_len(s) == if k < s.len() { k + 1 } else { k },
    decreases k,
{
    if k > 0 {
        let t = s.drop_first();
        assert forall|i: int| 0 <= i < k - 1 implies !is_terminator(#[trigger] t[i]) by {
            assert(t[i] == s[i + 1]);
        }
        if k < s.len() {
            assert(t[k - 1] == s[k]);
        }
        lemma_sentence_len_at(t, k - 1);
    }
}

/// `t` as a one-element list when it is not empty, else the empty list.
pub open spec fn keep_nonempty(t: Seq<char>) -> Seq<Seq<char>> {
    if t.len() > 0 {
        seq![t]
    } else {
        seq![]
    }
}

/// The sentences of `s`: the text is cut after each `.`, `!` or `?`, each piece is
/// trimmed, and empty pieces are dropped.
pub open spec fn sentences(s: Seq<char>) -> Seq<Seq<char>>
    decreases s.len(),
{
    if s.len() == 0 {
        seq![]
    } else {
        proof {
            lemma_sentence_len_bounds(s);
        }
        keep_nonempty(trim(s.take(sentence_len(s) as int))) + sentences(
            s.skip(sentence_len(s) as int),
        )
    }
}

/// The sentences of `v`, as `sentences` states.
pub fn sentences_of(v: &Vec<char>) -> (r: Vec<Vec<char>>)
    ensures
        char_views(r@) == sentences(v@),
{
    let n = v.len();
    let mut out: Vec<Vec<char>> = Vec::new();
    let mut start: usize = 0;
    let mut i: usize = 0;
    assert(v@.skip(0) =~= v@);
    while i < n
        invariant
            start <= i <= n == v.len(),
            sentences(v@) == char_views(out@) + sentences(
                v@.skip(start as int),
            ),
            forall|k: int| start <= k < i ==> !is_terminator(#[trigger] v@[k]),
        decreases n - i,
    {
        let c = v[i];
        if c == '.' || c == '!' || c == '?' {
            let ghost t = v@.skip(start as int);
            proof {
                assert forall|k: int| 0 <= k < i - start implies !is_terminator(#[trigger] t[k]) by {
                    assert(t[k] == v@[k + start]);
                }
                assert(t[i - start] == v@[i as int]);
                lemma_sentence_len_at(t, (i - start) as int);
                assert(t.take(i + 1 - start) =~= v@.subrange(start as int, i + 1));
                assert(t.skip(i + 1 - start) =~= v@.skip(i + 1));
            }
            let piece = slice_chars(v, start, i + 1);
            let trimmed = trim_chars(&piece);
            let ghost before = char_views(out@);
            if trimmed.len() > 0 {
                out.push(trimmed);
            }
            assert(char_views(out@) =~= before + keep_nonempty(
                trim(v@.subrange(start as int, i + 1)),
            ));
            start = i + 1;
        }
        i += 1;
    }
    let ghost t = v@.skip(start as int);
    proof {
        assert forall|k: int| 0 <= k < t.len() implies !is_terminator(#[trigger] t[k]) by {
            assert(t[k] == v@[k + start]);
        }
        lemma_sentence_len_at(t, t.len() as int);
        assert(t.take(t.len() as int) =~= t);
        assert(t.skip(t.len() as int) =~= Seq::<char>::empty());
        assert(sentences(Seq::<char>::empty()) =~= Seq::<Seq<char>>::empty());
        if t.len() == 0 {
            assert(trim(t) =~= t);
        }
        assert(sentences(t) =~= keep_nonempty(trim(t)));
    }
    let piece = slice_chars(v, start, n);
    assert(piece@ =~= t);
    let trimmed = trim_chars(&piece);
    let ghost before = char_views(out@);
    if trimmed.len() > 0 {
        out.push(trimmed);
    }
    assert(char_views(out@) =~= before + keep_nonempty(trim(t)));
    out
}


/// The last `OVERLAP` characters of `s` (all of `s` when it is shorter).
pub open spec fn overlap_window(s: Seq<char>) -> Seq<char> {
    if s.len() <= OVERLAP {
        s
    } else {
        s.skip(s.len() - OVERLAP)
    }
}

/// The index of the first space in `s`, or its length when it has none.
pub open spec fn space_pos(s: Seq<char>) -> nat
    decreases s.len(),
{
    if s.len() == 0 {
        0
    } else if s[0] == ' ' {
        0
    } else {
        1 + space_pos(s.drop_first())
    }
}

proof fn lemma_space_pos_at(s: Seq<char>, k: int)
    requires
        0 <= k <= s.len(),
        forall|i: int| 0 <= i < k ==> #[trigger] s[i] != ' ',
        k < s.len() ==> s[k] == ' ',
    ensures
        space_pos(s) == k,
    decreases k,
{
    if k > 0 {
        let t = s.drop_first();
        assert forall|i: int| 0 <= i < k - 1 implies #[trigger] t[i] != ' ' by {
            assert(t[i] == s[i + 1]);
        }
        if k < s.len() {
            assert(t[k - 1] == s[k]);
        }
        lemma_space_pos_at(t, k - 1);
    }
}

/// The tail of a chunk that the next chunk repeats, which always starts at the start of
/// a whole word: its last `OVERLAP` characters less everything up to and including the
/// first space in them. When they hold no space, they are the tail only if a word starts
/// where they start (at the start of the chunk, or after a space); else there is no tail.
pub open spec fn overlap_tail_of(s: Seq<char>) -> Seq<char> {
    let t = overlap_window(s);
    if space_pos(t) < t.len() {
        t.skip(space_pos(t) + 1int)
    } else if s.len() <= OVERLAP || s[s.len() - OVERLAP - 1] == ' ' {
        t
    } else {
        seq![]
    }
}

/// The overlap tail of `v`, as `overlap_tail_of` states.
pub fn overlap_tail_chars(v: &Vec<char>) -> (r: Vec<char>)
    ensures
        r@ == overlap_tail_of(v@),
{
    let n = v.len();
    let start: usize = if n <= OVERLAP {
        0
    } else {
        n - OVERLAP
    };
    let ghost t = overlap_window(v@);
    assert(t =~= v@.skip(start as int));
    let mut i = start;
    while i < n && v[i] != ' '
        invariant
            start <= i <= n == v.len(),
            forall|k: int| start <= k < i ==> #[trigger] v@[k] != ' ',
        decreases n - i,
    {
        i += 1;
    }
    proof {
        assert forall|k: int| 0 <= k < i - start implies #[trigger] t[k] != ' ' by {
            assert(t[k] == v@[k + start]);
        }
        if i < n {
            assert(t[i - start] == v@[i as int]);
        }
        lemma_space_pos_at(t, (i - start) as int);
    }
    if i < n {
        assert(t.skip(i - start + 1) =~= v@.subrange(i + 1, n as int));
        slice_chars(v, i + 1, n)
    } else if start == 0 || v[start - 1] == ' ' {
        assert(t =~= v@.subrange(start as int, n as int));
        slice_chars(v, start, n)
    } else {
        Vec::new()
    }
}

/// The tail of `chunk` that the next chunk starts with: the whole words among its last
/// `OVERLAP` characters, as `overlap_tail_of` states.
pub fn overlap_tail(chunk: &str) -> (r: String)
    ensures
        r@ == overlap_tail_of(chunk@),
{
    let v = chars_of(chunk);
    string_of(&overlap_tail_chars(&v))
}

/// The sentences of `text`: cut after each `.`, `!` or `?`, trimmed, empty ones dropped.
pub fn split_into_sentences(text: &str) -> (r: Vec<String>)
    ensures
        string_views(r@) == sentences(text@),
{
    let v = chars_of(text);
    strings_of(sentences_of(&v))
}

/// Each list of characters as a `String`.
pub fn strings_of(v: Vec<Vec<char>>) -> (r: Vec<String>)
    ensures
        string_views(r@) == char_views(v@),
{
    let mut r: Vec<String> = Vec::new();
    let mut i: usize = 0;
    while i < v.len()
        invariant
            i <= v.len(),
            string_views(r@) == char_views(v@).take(i as int),
        decreases v.len() - i,
    {
        let s = string_of(&v[i]);
        let ghost before = r@;
        r.push(s);
        proof {
            assert(r@ == before.push(s));
            assert(string_views(before).len() == i);
            assert(before.len() == i);
            assert(string_views(r@) =~= string_views(before).push(s@));
            assert(s@ == char_views(v@)[i as int]);
            assert(char_views(v@).take(i + 1) =~= char_views(v@).take(i as int).push(
                char_views(v@)[i as int],
            ));
        }
        i += 1;
        assert(string_views(r@) =~= char_views(v@).take(
            i as int,
        ));
    }
    assert(char_views(v@).take(i as int) =~= char_views(v@));
    r
}

/// Adds the characters of `src` at the end of `dst`.
pub fn push_chars(dst: &mut Vec<char>, src: &Vec<char>)
    ensures
        final(dst)@ == old(dst)@ + src@,
{
    let mut i: usize = 0;
    while i < src.len()
        invariant
            i <= src.len(),
            dst@ == old(dst)@ + src@.take(i as int),
        decreases src.len() - i,
    {
        dst.push(src[i]);
        i += 1;
        assert(dst@ =~= old(dst)@ + src@.take(i as int));
    }
    assert(src@.take(i as int) =~= src@);
}

/// One step of packing sentences into chunks: when the current chunk holds something
/// and adding the sentence would make it (trimmed, with the joining space) longer than
/// `TARGET_CHUNK_SIZE`, the current chunk is closed and a new one starts with its
/// overlap tail; the sentence is then added after a space.
pub open spec fn pack_step(acc: (Seq<Seq<char>>, Seq<char>), sentence: Seq<char>) -> (
    Seq<Seq<char>>,
    Seq<char>,
) {
    let chunks = acc.0;
    let cur = acc.1;
    if cur.len() > 0 && trim(cur).len() + 1 + sentence.len() > TARGET_CHUNK_SIZE {
        (chunks.push(trim(cur)), overlap_tail_of(cur) + seq![' '] + sentence)
    } else {
        (chunks, cur + seq![' '] + sentence)
    }
}

/// The closed chunks and the open one after packing `sents` in order.
pub open spec fn pack(sents: Seq<Seq<char>>) -> (Seq<Seq<char>>, Seq<char>)
    decreases sents.len(),
{
    if sents.len() == 0 {
        (seq![], seq![])
    } else {
        pack_step(pack(sents.drop_last()), sents.last())
    }
}

/// The closed chunks, followed by the open one when it holds more than whitespace.
pub open spec fn finish(acc: (Seq<Seq<char>>, Seq<char>)) -> Seq<Seq<char>> {
    if trim(acc.1).len() > 0 {
        acc.0.push(trim(acc.1))
    } else {
        acc.0
    }
}

/// The chunks of `text`: its whitespace is collapsed, it is cut into sentences, and the
/// sentences are packed in order into chunks of about `TARGET_CHUNK_SIZE` characters,
/// each after the first starting with the overlap tail of the one before.
pub open spec fn chunks(text: Seq<char>) -> Seq<Seq<char>> {
    finish(pack(sentences(normalize(text))))
}

/// Splits `text` into chunks that follow sentence boundaries, with overlap between
/// consecutive chunks.
pub fn chunk_text(text: &str) -> (r: Vec<String>)
    ensures
        string_views(r@) == chunks(text@),
{
    let v = chars_of(text);
    let normalized = normalize_chars(&v);
    if normalized.len() == 0 {
        assert(sentences(normalized@) =~= Seq::<Seq<char>>::empty());
        assert(trim(Seq::<char>::empty()) =~= Seq::<char>::empty());
        let r: Vec<String> = Vec::new();
        assert(string_views(r@) =~= chunks(text@));
        return r;
    }
    let sents = sentences_of(&normalized);
    let ghost ss = char_views(sents@);
    let mut done: Vec<Vec<char>> = Vec::new();
    let mut current: Vec<char> = Vec::new();
    let mut k: usize = 0;
    assert(ss.take(0) =~= Seq::<Seq<char>>::empty());
    while k < sents.len()
        invariant
            k <= sents.len(),
            ss == char_views(sents@),
            (char_views(done@), current@) == pack(ss.take(k as int)),
        decreases sents.len() - k,
    {
        let sentence = &sents[k];
        assert(ss.take(k + 1).drop_last() =~= ss.take(k as int));
        assert(ss.take(k + 1).last() == sentence@);
        let trimmed_len = trim_chars(&current).len();
        if current.len() > 0 && (sentence.len() >= TARGET_CHUNK_SIZE || trimmed_len
            > TARGET_CHUNK_SIZE - 1 - sentence.len()) {
            let closed = trim_chars(&current);
            let tail = overlap_tail_chars(&current);
            let ghost before = char_views(done@);
            done.push(closed);
            assert(char_views(done@) =~= before.push(trim(current@)));
            current = tail;
        }
        current.push(' ');
        push_chars(&mut current, sentence);
        k += 1;
    }
    assert(ss.take(k as int) =~= ss);
    let last = trim_chars(&current);
    if last.len() > 0 {
        done.push(last);
    }
    assert(char_views(done@) =~= chunks(text@));
    strings_of(done)
}

} // verus!
