use vstd::prelude::*;

verus! {

/// The character sequences held by a list of strings.
pub open spec fn string_views(v: Seq<String>) -> Seq<Seq<char>> {
    v.map_values(|x: String| x@)
}

/// The character sequences held by a list of character vectors.
pub open spec fn char_views(v: Seq<Vec<char>>) -> Seq<Seq<char>> {
    v.map_values(|x: Vec<char>| x@)
}

/// The characters that `char::is_whitespace` accepts: the Unicode `White_Space` property.
pub open spec fn is_ws(c: char) -> bool {
    let u = c as u32;
    ||| 0x09 <= u <= 0x0D
    ||| u == 0x20
    ||| u == 0x85
    ||| u == 0xA0
    ||| u == 0x1680
    ||| 0x2000 <= u <= 0x200A
    ||| u == 0x2028
    ||| u == 0x2029
    ||| u == 0x202F
    ||| u == 0x205F
    ||| u == 0x3000
}

/// Whether `c` is a whitespace character.
pub fn is_whitespace(c: char) -> (b: bool)
    ensures
        b == is_ws(c),
{
    let u = c as u32;
    (0x09 <= u && u <= 0x0D) || u == 0x20 || u == 0x85 || u == 0xA0 || u == 0x1680 || (0x2000 <= u
        && u <= 0x200A) || u == 0x2028 || u == 0x2029 || u == 0x202F || u == 0x205F || u == 0x3000
}

/// The characters of `s`, in order.
pub fn chars_of(s: &str) -> (v: Vec<char>)
    ensures
        v@ == s@,
{
    broadcast use vstd::string::group_string_axioms;
    let mut v: Vec<char> = Vec::new();
    for c in it: s.chars()
        invariant
            v@ == it.seq().take(it.index()),
    {
        v.push(c);
    }
    v
}


/// Builds a `String` from its characters with `Iterator::collect`; the contract claims
/// that the string holds exactly the given characters, in order.
#[verifier::external_body]
pub(crate) fn string_of(v: &Vec<char>) -> (s: String)
    ensures
        s@ == v@,
{
    v.iter().collect()
}

/// `s` with its leading whitespace removed.
pub open spec fn trim_start(s: Seq<char>) -> Seq<char>
    decreases s.len(),
{
    if s.len() > 0 && is_ws(s[0]) {
        trim_start(s.drop_first())
    } else {
        s
    }
}

/// `s` with its trailing whitespace removed.
pub open spec fn trim_end(s: Seq<char>) -> Seq<char>
    decreases s.len(),
{
    if s.len() > 0 && is_ws(s.last()) {
        trim_end(s.drop_last())
    } else {
        s
    }
}

/// `s` with leading and trailing whitespace removed, as `str::trim` does.
pub open spec fn trim(s: Seq<char>) -> Seq<char> {
    trim_end(trim_start(s))
}

/// Skipping a prefix made of whitespace that ends before a non-whitespace character
/// (or at the end) is trimming the start.
pub proof fn lemma_trim_start_skip(s: Seq<char>, a: int)
    requires
        0 <= a <= s.len(),
        forall|i: int| 0 <= i < a ==> is_ws(#[trigger] s[i]),
        a == s.len() || !is_ws(s[a]),
    ensures
        trim_start(s) == s.skip(a),
    decreases a,
{
    if a == 0 {
        assert(s.skip(0) =~= s);
    } else {
        assert(is_ws(s[0]));
        let t = s.drop_first();
        assert forall|i: int| 0 <= i < a - 1 implies is_ws(#[trigger] t[i]) by {
            assert(t[i] == s[i + 1]);
        }
        lemma_trim_start_skip(t, a - 1);
        assert(t.skip(a - 1) =~= s.skip(a));
    }
}

/// Dropping a suffix made of whitespace that starts after a non-whitespace character
/// (or at the start) is trimming the end.
pub proof fn lemma_trim_end_take(s: Seq<char>, b: int)
    requires
        0 <= b <= s.len(),
        forall|i: int| b <= i < s.len() ==> is_ws(#[trigger] s[i]),
        b == 0 || !is_ws(s[b - 1]),
    ensures
        trim_end(s) == s.take(b),
    decreases s.len() - b,
{
    if b == s.len() {
        assert(s.take(b) =~= s);
    } else {
        assert(is_ws(s.last()));
        let t = s.drop_last();
        assert forall|i: int| b <= i < t.len() implies is_ws(#[trigger] t[i]) by {
            assert(t[i] == s[i]);
        }
        lemma_trim_end_take(t, b);
        assert(t.take(b) =~= s.take(b));
    }
}

/// The characters of `v` from index `a` up to `b`.
pub fn slice_chars(v: &Vec<char>, a: usize, b: usize) -> (r: Vec<char>)
    requires
        a <= b <= v.len(),
    ensures
        r@ == v@.subrange(a as int, b as int),
{
    let mut r: Vec<char> = Vec::new();
    let mut i = a;
    while i < b
        invariant
            a <= i <= b <= v.len(),
            r@ == v@.subrange(a as int, i as int),
        decreases b - i,
    {
        r.push(v[i]);
        i += 1;
        assert(r@ =~= v@.subrange(a as int, i as int));
    }
    r
}

/// `v` without leading and trailing whitespace.
pub fn trim_chars(v: &Vec<char>) -> (r: Vec<char>)
    ensures
        r@ == trim(v@),
{
    let n = v.len();
    let mut a: usize = 0;
    while a < n && is_whitespace(v[a])
        invariant
            a <= n == v.len(),
            forall|i: int| 0 <= i < a ==> is_ws(#[trigger] v@[i]),
        decreases n - a,
    {
        a += 1;
    }
    proof {
        lemma_trim_start_skip(v@, a as int);
    }
    let mut b: usize = n;
    while b > a && is_whitespace(v[b - 1])
        invariant
            a <= b <= n == v.len(),
            forall|i: int| b <= i < n ==> is_ws(#[trigger] v@[i]),
        decreases b,
    {
        b -= 1;
    }
    let ghost t = v@.skip(a as int);
    proof {
        assert forall|i: int| b - a <= i < t.len() implies is_ws(#[trigger] t[i]) by {
            assert(t[i] == v@[i + a]);
        }
        if b > a {
            assert(t[b - a - 1] == v@[b - 1]);
        }
        lemma_trim_end_take(t, (b - a) as int);
        assert(t.take(b - a) =~= v@.subrange(a as int, b as int));
    }
    slice_chars(v, a, b)
}


/// The number of non-whitespace characters at the start of `s`.
pub open spec fn word_len(s: Seq<char>) -> nat
    decreases s.len(),
{
    if s.len() == 0 || is_ws(s[0]) {
        0
    } else {
        1 + word_len(s.drop_first())
    }
}

pub proof fn lemma_word_len_bounds(s: Seq<char>)
    ensures
        word_len(s) <= s.len(),
        s.len() > 0 && !is_ws(s[0]) ==> word_len(s) >= 1,
    decreases s.len(),
{
    if s.len() > 0 && !is_ws(s[0]) {
        lemma_word_len_bounds(s.drop_first());
    }
}

/// A run of `k` non-whitespace characters that ends at whitespace (or at the end)
/// is the word at the start of `s`.
pub proof fn lemma_word_len_run(s: Seq<char>, k: int)
    requires
        0 <= k <= s.len(),
        forall|i: int| 0 <= i < k ==> !is_ws(#[trigger] s[i]),
        k == s.len() || is_ws(s[k]),
    ensures
        word_len(s) == k,
    decreases k,
{
    if k > 0 {
        let t = s.drop_first();
        assert forall|i: int| 0 <= i < k - 1 implies !is_ws(#[trigger] t[i]) by {
            assert(t[i] == s[i + 1]);
        }
        lemma_word_len_run(t, k - 1);
    }
}

/// The maximal runs of non-whitespace characters of `s`, in order, as
/// `str::split_whitespace` yields them.
pub open spec fn words(s: Seq<char>) -> Seq<Seq<char>>
    decreases s.len(),
{
    if s.len() == 0 {
        seq![]
    } else if is_ws(s[0]) {
        words(s.drop_first())
    } else {
        proof {
            lemma_word_len_bounds(s);
        }
        seq![s.take(word_len(s) as int)] + words(s.skip(word_len(s) as int))
    }
}

/// The pieces of `parts` joined with one `sep` between each two of them.
pub open spec fn join(parts: Seq<Seq<char>>, sep: char) -> Seq<char>
    decreases parts.len(),
{
    if parts.len() == 0 {
        seq![]
    } else if parts.len() == 1 {
        parts[0]
    } else {
        join(parts.drop_last(), sep) + seq![sep] + parts.last()
    }
}

/// The words of `s` joined by single spaces: every run of whitespace becomes one
/// space, and leading and trailing whitespace disappear.
pub open spec fn normalize(s: Seq<char>) -> Seq<char> {
    join(words(s), ' ')
}

/// `s` with its whitespace collapsed as `normalize` states.
pub fn normalize_chars(v: &Vec<char>) -> (r: Vec<char>)
    ensures
        r@ == normalize(v@),
{
    let n = v.len();
    let mut out: Vec<char> = Vec::new();
    let ghost mut done: Seq<Seq<char>> = seq![];
    let mut i: usize = 0;
    let mut started = false;
    assert(v@.skip(0) =~= v@);
    while i < n
        invariant
            i <= n == v.len(),
            started == (done.len() > 0),
            words(v@) == done + words(v@.skip(i as int)),
            out@ == join(done, ' '),
        decreases n - i,
    {
        if is_whitespace(v[i]) {
            assert(v@.skip(i as int).drop_first() =~= v@.skip(i + 1));
            i += 1;
        } else {
            let mut j = i;
            while j < n && !is_whitespace(v[j])
                invariant
                    i <= j <= n == v.len(),
                    forall|k: int| i <= k < j ==> !is_ws(#[trigger] v@[k]),
                decreases n - j,
            {
                j += 1;
            }
            let ghost t = v@.skip(i as int);
            proof {
                assert forall|k: int| 0 <= k < j - i implies !is_ws(#[trigger] t[k]) by {
                    assert(t[k] == v@[k + i]);
                }
                if j < n {
                    assert(t[j - i] == v@[j as int]);
                }
                lemma_word_len_run(t, (j - i) as int);
                assert(t.take((j - i) as int) =~= v@.subrange(i as int, j as int));
                assert(t.skip((j - i) as int) =~= v@.skip(j as int));
            }
            let ghost old_done = done;
            proof {
                done = done.push(v@.subrange(i as int, j as int));
                assert(done.drop_last() =~= old_done);
                assert(words(v@) =~= done + words(v@.skip(j as int)));
            }
            if started {
                out.push(' ');
            }
            started = true;
            let mut k = i;
            while k < j
                invariant
                    i <= k <= j <= n == v.len(),
                    done.len() > 0,
                    out@ == join(done.drop_last(), ' ') + (if done.len() > 1 {
                        seq![' ']
                    } else {
                        seq![]
                    }) + v@.subrange(i as int, k as int),
                decreases j - k,
            {
                out.push(v[k]);
                k += 1;
                assert(out@ =~= join(done.drop_last(), ' ') + (if done.len() > 1 {
                    seq![' ']
                } else {
                    seq![]
                }) + v@.subrange(i as int, k as int));
            }
            assert(out@ =~= join(done, ' '));
            i = j;
        }
    }
    assert(v@.skip(n as int) =~= Seq::<char>::empty());
    assert(done + Seq::<Seq<char>>::empty() =~= done);
    out
}


/// `trim_start` drops a (possibly empty) run of whitespace and stops at a
/// non-whitespace character or at the end; the result gives where it stops.
pub proof fn lemma_trim_start_shape(s: Seq<char>) -> (a: int)
    ensures
        0 <= a <= s.len(),
        trim_start(s) == s.skip(a),
        forall|i: int| 0 <= i < a ==> is_ws(#[trigger] s[i]),
        a == s.len() || !is_ws(s[a]),
    decreases s.len(),
{
    if s.len() > 0 && is_ws(s[0]) {
        let t = s.drop_first();
        let a0 = lemma_trim_start_shape(t);
        assert(t.skip(a0) =~= s.skip(a0 + 1));
        assert forall|i: int| 0 <= i < a0 + 1 implies is_ws(#[trigger] s[i]) by {
            if i > 0 {
                assert(s[i] == t[i - 1]);
            }
        }
        a0 + 1
    } else {
        assert(s.skip(0) =~= s);
        0
    }
}

/// `trim_end` drops a (possibly empty) run of whitespace at the end; the result gives
/// where what is left ends.
pub proof fn lemma_trim_end_shape(s: Seq<char>) -> (b: int)
    ensures
        0 <= b <= s.len(),
        trim_end(s) == s.take(b),
        forall|i: int| b <= i < s.len() ==> is_ws(#[trigger] s[i]),
        b == 0 || !is_ws(s[b - 1]),
    decreases s.len(),
{
    if s.len() > 0 && is_ws(s.last()) {
        let t = s.drop_last();
        let b0 = lemma_trim_end_shape(t);
        assert(t.take(b0) =~= s.take(b0));
        assert forall|i: int| b0 <= i < s.len() implies is_ws(#[trigger] s[i]) by {
            if i < s.len() - 1 {
                assert(s[i] == t[i]);
            }
        }
        b0
    } else {
        assert(s.take(s.len() as int) =~= s);
        s.len() as int
    }
}

/// What `trim` keeps of `s`: a contiguous piece, outside of which everything is
/// whitespace, that starts and ends with a non-whitespace character when not empty.
pub proof fn lemma_trim_shape(s: Seq<char>) -> (ab: (int, int))
    ensures
        0 <= ab.0 <= ab.1 <= s.len(),
        trim(s) == s.subrange(ab.0, ab.1),
        forall|i: int| 0 <= i < ab.0 ==> is_ws(#[trigger] s[i]),
        forall|i: int| ab.1 <= i < s.len() ==> is_ws(#[trigger] s[i]),
        trim(s).len() > 0 ==> !is_ws(trim(s)[0]) && !is_ws(trim(s).last()),
        (exists|i: int| 0 <= i < s.len() && !is_ws(#[trigger] s[i])) ==> trim(s).len() > 0,
        s.len() > 0 && !is_ws(s[0]) && !is_ws(s.last()) ==> trim(s) == s,
{
    let a = lemma_trim_start_shape(s);
    let t = s.skip(a);
    let b = lemma_trim_end_shape(t);
    assert(t.take(b) =~= s.subrange(a, a + b));
    assert forall|i: int| a + b <= i < s.len() implies is_ws(#[trigger] s[i]) by {
        assert(s[i] == t[i - a]);
    }
    if b > 0 {
        assert(trim(s)[0] == s[a]);
        assert(trim(s).last() == t[b - 1]);
    } else {
        if a < s.len() {
            assert(t[0] == s[a]);
        }
    }
    if exists|i: int| 0 <= i < s.len() && !is_ws(#[trigger] s[i]) {
        let i = choose|i: int| 0 <= i < s.len() && !is_ws(#[trigger] s[i]);
        assert(a <= i < a + b);
    }
    if s.len() > 0 && !is_ws(s[0]) && !is_ws(s.last()) {
        assert(a == 0);
        assert(s[s.len() - 1] == t[s.len() - 1 - a]);
        assert(a + b == s.len());
        assert(s.subrange(0, s.len() as int) =~= s);
    }
    (a, a + b)
}

/// A text in normal form: the only whitespace in it is the plain space, and no two
/// spaces are next to each other.
pub open spec fn clean(x: Seq<char>) -> bool {
    &&& forall|i: int| 0 <= i < x.len() && is_ws(#[trigger] x[i]) ==> x[i] == ' '
    &&& forall|i: int| 0 <= i < x.len() - 1 && #[trigger] x[i] == ' ' ==> x[i + 1] != ' '
}

/// A piece of a text in normal form is in normal form.
pub proof fn lemma_clean_subrange(x: Seq<char>, a: int, b: int)
    requires
        clean(x),
        0 <= a <= b <= x.len(),
    ensures
        clean(x.subrange(a, b)),
{
    let y = x.subrange(a, b);
    assert forall|i: int| 0 <= i < y.len() - 1 && #[trigger] y[i] == ' ' implies y[i + 1]
        != ' ' by {
        assert(y[i] == x[a + i]);
        assert(y[i + 1] == x[a + i + 1]);
    }
    assert forall|i: int| 0 <= i < y.len() && is_ws(#[trigger] y[i]) implies y[i] == ' ' by {
        assert(y[i] == x[a + i]);
    }
}

/// Every word is a non-empty run of non-whitespace characters.
pub proof fn lemma_words_shape(s: Seq<char>)
    ensures
        forall|j: int| 0 <= j < words(s).len() ==> (#[trigger] words(s)[j]).len() > 0,
        forall|j: int, k: int|
            0 <= j < words(s).len() && 0 <= k < words(s)[j].len() ==> !is_ws(
                #[trigger] words(s)[j][k],
            ),
        (exists|i: int| 0 <= i < s.len() && !is_ws(#[trigger] s[i])) ==> words(s).len() > 0,
    decreases s.len(),
{
    if s.len() == 0 {
    } else if is_ws(s[0]) {
        lemma_words_shape(s.drop_first());
        if exists|i: int| 0 <= i < s.len() && !is_ws(#[trigger] s[i]) {
            let i = choose|i: int| 0 <= i < s.len() && !is_ws(#[trigger] s[i]);
            assert(s.drop_first()[i - 1] == s[i]);
        }
    } else {
        lemma_word_len_bounds(s);
        let n = word_len(s) as int;
        lemma_words_shape(s.skip(n));
        lemma_word_run(s);
        let w = words(s);
        assert(w == seq![s.take(n)] + words(s.skip(n)));
        assert forall|j: int, k: int| 0 <= j < w.len() && 0 <= k < w[j].len() implies !is_ws(
            #[trigger] w[j][k],
        ) by {
            if j == 0 {
                assert(w[0][k] == s[k]);
            } else {
                assert(w[j] == words(s.skip(n))[j - 1]);
            }
        }
        assert forall|j: int| 0 <= j < w.len() implies (#[trigger] w[j]).len() > 0 by {
            if j > 0 {
                assert(w[j] == words(s.skip(n))[j - 1]);
            }
        }
    }
}

/// The characters counted by `word_len` are not whitespace.
pub proof fn lemma_word_run(s: Seq<char>)
    ensures
        forall|k: int| 0 <= k < word_len(s) ==> !is_ws(#[trigger] s[k]),
    decreases s.len(),
{
    if s.len() > 0 && !is_ws(s[0]) {
        lemma_word_run(s.drop_first());
        lemma_word_len_bounds(s);
        assert forall|k: int| 0 <= k < word_len(s) implies !is_ws(#[trigger] s[k]) by {
            if k > 0 {
                assert(s[k] == s.drop_first()[k - 1]);
            }
        }
    }
}

/// Joining non-empty pieces without whitespace by single spaces gives a text in normal
/// form that starts and ends with a non-whitespace character.
pub proof fn lemma_join_clean(parts: Seq<Seq<char>>)
    requires
        forall|j: int| 0 <= j < parts.len() ==> (#[trigger] parts[j]).len() > 0,
        forall|j: int, k: int|
            0 <= j < parts.len() && 0 <= k < parts[j].len() ==> !is_ws(#[trigger] parts[j][k]),
    ensures
        clean(join(parts, ' ')),
        join(parts, ' ').len() > 0 <==> parts.len() > 0,
        join(parts, ' ').len() > 0 ==> !is_ws(join(parts, ' ')[0]) && !is_ws(
            join(parts, ' ').last(),
        ),
    decreases parts.len(),
{
    let x = join(parts, ' ');
    if parts.len() == 0 {
    } else if parts.len() == 1 {
        assert(!is_ws(parts[0][0]));
        assert(!is_ws(parts[0][parts[0].len() - 1]));
        assert forall|i: int| 0 <= i < x.len() && is_ws(#[trigger] x[i]) implies x[i] == ' ' by {
            assert(!is_ws(parts[0][i]));
        }
    } else {
        let init = parts.drop_last();
        let last = parts.last();
        assert forall|j: int, k: int| 0 <= j < init.len() && 0 <= k < init[j].len() implies !is_ws(
            #[trigger] init[j][k],
        ) by {
            assert(init[j] == parts[j]);
        }
        assert forall|j: int| 0 <= j < init.len() implies (#[trigger] init[j]).len() > 0 by {
            assert(init[j] == parts[j]);
        }
        lemma_join_clean(init);
        let y = join(init, ' ');
        assert(x == y + seq![' '] + last);
        assert(last.len() > 0);
        assert forall|k: int| 0 <= k < last.len() implies !is_ws(#[trigger] last[k]) by {
            assert(last[k] == parts[parts.len() - 1][k]);
        }
        assert forall|i: int| 0 <= i < x.len() && is_ws(#[trigger] x[i]) implies x[i] == ' ' by {
            if i < y.len() {
                assert(x[i] == y[i]);
            } else if i > y.len() {
                assert(x[i] == last[i - y.len() - 1]);
            }
        }
        assert forall|i: int| 0 <= i < x.len() - 1 && #[trigger] x[i] == ' ' implies x[i + 1]
            != ' ' by {
            if i < y.len() - 1 {
                assert(x[i] == y[i]);
                assert(x[i + 1] == y[i + 1]);
            } else if i == y.len() - 1 {
                assert(x[i] == y.last());
            } else if i == y.len() {
                assert(x[i + 1] == last[0]);
            } else {
                assert(x[i] == last[i - y.len() - 1]);
            }
        }
        assert(x[0] == y[0]);
        assert(x.last() == last.last());
    }
}

/// A normalized text is in normal form, starts and ends with a non-whitespace character,
/// and is empty exactly when the text holds nothing but whitespace.
pub proof fn lemma_normalize_clean(s: Seq<char>)
    ensures
        clean(normalize(s)),
        normalize(s).len() > 0 ==> !is_ws(normalize(s)[0]) && !is_ws(normalize(s).last()),
        normalize(s).len() > 0 <==> (exists|i: int| 0 <= i < s.len() && !is_ws(#[trigger] s[i])),
{
    lemma_words_shape(s);
    lemma_join_clean(words(s));
    if normalize(s).len() > 0 {
        assert(words(s).len() > 0);
        lemma_words_from_nonws(s);
    }
}

/// A text with a word holds a non-whitespace character.
pub proof fn lemma_words_from_nonws(s: Seq<char>)
    requires
        words(s).len() > 0,
    ensures
        exists|i: int| 0 <= i < s.len() && !is_ws(#[trigger] s[i]),
    decreases s.len(),
{
    if s.len() > 0 && is_ws(s[0]) {
        lemma_words_from_nonws(s.drop_first());
        let i = choose|i: int| 0 <= i < s.len() - 1 && !is_ws(#[trigger] s.drop_first()[i]);
        assert(s[i + 1] == s.drop_first()[i]);
    } else if s.len() > 0 {
        assert(!is_ws(s[0]));
    }
}

} // verus!
