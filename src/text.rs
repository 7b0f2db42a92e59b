//! Character-level text primitives: whitespace, words and their joining.
use vstd::prelude::*;
use vstd::std_specs::iter::IteratorSpec;

verus! {

broadcast use vstd::string::group_string_axioms;

/// Whether `c` has the Unicode `White_Space` property.
pub open spec fn is_ws_spec(c: char) -> bool {
    c == '\t' || c == '\n' || c == '\u{0B}' || c == '\u{0C}' || c == '\r' || c == ' '
        || c == '\u{85}' || c == '\u{A0}' || c == '\u{1680}'
        || ('\u{2000}' <= c && c <= '\u{200A}')
        || c == '\u{2028}' || c == '\u{2029}' || c == '\u{202F}' || c == '\u{205F}'
        || c == '\u{3000}'
}

/// Tests the Unicode `White_Space` property.
pub fn is_ws(c: char) -> (r: bool)
    ensures
        r == is_ws_spec(c),
{
    c == '\t' || c == '\n' || c == '\u{0B}' || c == '\u{0C}' || c == '\r' || c == ' '
        || c == '\u{85}' || c == '\u{A0}' || c == '\u{1680}'
        || ('\u{2000}' <= c && c <= '\u{200A}')
        || c == '\u{2028}' || c == '\u{2029}' || c == '\u{202F}' || c == '\u{205F}'
        || c == '\u{3000}'
}

/// The maximal runs of non-whitespace characters of `s`, in order.
pub open spec fn words(s: Seq<char>) -> Seq<Seq<char>>
    decreases s.len(),
{
    if s.len() == 0 {
        seq![]
    } else {
        let p = s.drop_last();
        let c = s.last();
        let w = words(p);
        if is_ws_spec(c) {
            w
        } else if p.len() == 0 || is_ws_spec(p.last()) {
            w.push(seq![c])
        } else {
            w.update(w.len() - 1, w.last().push(c))
        }
    }
}

/// The pieces of `ws` joined by single spaces.
pub open spec fn join_spaces(ws: Seq<Seq<char>>) -> Seq<char>
    decreases ws.len(),
{
    if ws.len() == 0 {
        seq![]
    } else if ws.len() == 1 {
        ws[0]
    } else {
        join_spaces(ws.drop_last()) + seq![' '] + ws.last()
    }
}

/// `s` with every whitespace run collapsed to one space and the ends trimmed.
pub open spec fn normalize_spec(s: Seq<char>) -> Seq<char> {
    join_spaces(words(s))
}

/// The pieces of `ws` concatenated in order.
pub open spec fn concat_all(ws: Seq<Seq<char>>) -> Seq<char>
    decreases ws.len(),
{
    if ws.len() == 0 {
        seq![]
    } else {
        concat_all(ws.drop_last()) + ws.last()
    }
}

/// The character sequences of a sequence of character vectors.
pub open spec fn char_rows(v: Seq<Vec<char>>) -> Seq<Seq<char>> {
    v.map_values(|w: Vec<char>| w@)
}

/// The character sequences of a sequence of strings.
pub open spec fn string_views(v: Seq<String>) -> Seq<Seq<char>> {
    v.map_values(|w: String| w@)
}

/// Concatenation distributes over appending sequences of pieces.
pub proof fn lemma_concat_all_append(a: Seq<Seq<char>>, b: Seq<Seq<char>>)
    ensures
        concat_all(a + b) == concat_all(a) + concat_all(b),
    decreases b.len(),
{
    if b.len() == 0 {
        assert(a + b =~= a);
        assert(concat_all(a) + concat_all(b) =~= concat_all(a));
    } else {
        assert((a + b).drop_last() =~= a + b.drop_last());
        lemma_concat_all_append(a, b.drop_last());
        assert(concat_all(a + b) =~= concat_all(a) + concat_all(b));
    }
}

/// A single piece concatenates to itself.
pub proof fn lemma_concat_all_single(x: Seq<char>)
    ensures
        concat_all(seq![x]) == x,
{
    assert(seq![x].drop_last() =~= Seq::<Seq<char>>::empty());
    assert(concat_all(Seq::<Seq<char>>::empty()) + x =~= x);
}

proof fn lemma_words_nonempty(s: Seq<char>)
    requires
        s.len() > 0,
        !is_ws_spec(s.last()),
    ensures
        words(s).len() > 0,
    decreases s.len(),
{
    let p = s.drop_last();
    if p.len() > 0 && !is_ws_spec(p.last()) {
        lemma_words_nonempty(p);
    }
}

proof fn lemma_words_take_step(s: Seq<char>, i: int)
    requires
        0 <= i < s.len(),
    ensures
        s.take(i + 1).drop_last() == s.take(i),
        s.take(i + 1).last() == s[i],
        i > 0 ==> s.take(i).last() == s[i - 1],
{
    assert(s.take(i + 1).drop_last() =~= s.take(i));
}

proof fn lemma_join_extend(ws: Seq<Seq<char>>, c: char)
    requires
        ws.len() > 0,
    ensures
        join_spaces(ws.update(ws.len() - 1, ws.last().push(c))) == join_spaces(ws).push(c),
{
    let u = ws.update(ws.len() - 1, ws.last().push(c));
    if ws.len() > 1 {
        assert(u.drop_last() =~= ws.drop_last());
    }
    assert(join_spaces(u) =~= join_spaces(ws).push(c));
}

/// The characters of `s`.
pub fn chars_of(s: &str) -> (r: Vec<char>)
    ensures
        r@ == s@,
{
    let mut it = s.chars();
    let mut out: Vec<char> = Vec::new();
    loop
        invariant
            out@ + it.remaining() == s@,
            it.obeys_prophetic_iter_laws(),
        decreases s@.len() - out@.len(),
    {
        match it.next() {
            Some(c) => {
                out.push(c);
                assert(out@ + it.remaining() =~= s@);
            },
            None => {
                assert(out@ =~= s@);
                return out;
            },
        }
    }
}

/// Relies on `FromIterator<&char>` for `String`: the string holds the given characters.
#[verifier::external_body]
pub(crate) fn string_of(v: &[char]) -> (r: String)
    ensures
        r@ == v@,
{
    v.iter().collect()
}

/// A copy of `t[lo..hi]`.
pub fn sub_chars(t: &Vec<char>, lo: usize, hi: usize) -> (r: Vec<char>)
    requires
        lo <= hi <= t@.len(),
    ensures
        r@ == t@.subrange(lo as int, hi as int),
{
    let mut out: Vec<char> = Vec::new();
    let mut i: usize = lo;
    while i < hi
        invariant
            lo <= i <= hi <= t@.len(),
            out@ == t@.subrange(lo as int, i as int),
        decreases hi - i,
    {
        out.push(t[i]);
        proof {
            assert(out@ =~= t@.subrange(lo as int, i + 1));
        }
        i = i + 1;
    }
    out
}

/// The strings holding each character vector of `v`, in order.
pub fn strings_of(v: &Vec<Vec<char>>) -> (r: Vec<String>)
    ensures
        string_views(r@) == char_rows(v@),
{
    let mut out: Vec<String> = Vec::new();
    let mut k: usize = 0;
    while k < v.len()
        invariant
            k <= v@.len(),
            out@.len() == k,
            string_views(out@) == char_rows(v@).take(k as int),
        decreases v.len() - k,
    {
        let row = &v[k];
        let s = string_of(row.as_slice());
        let ghost prev = out@;
        out.push(s);
        proof {
            assert(out@ == prev.push(s));
            assert(s@ == v@[k as int]@);
            assert forall|j: int| 0 <= j < k + 1 implies #[trigger] string_views(out@)[j]
                == char_rows(v@).take(k + 1)[j] by {
                if j < k {
                    assert(string_views(prev)[j] == char_rows(v@).take(k as int)[j]);
                }
            }
            assert(string_views(out@) =~= char_rows(v@).take(k + 1));
        }
        k = k + 1;
    }
    proof {
        assert(char_rows(v@).take(k as int) =~= char_rows(v@));
    }
    out
}

/// The words of `t[lo..hi]`, as maximal runs of non-whitespace characters.
pub fn split_words_range(t: &Vec<char>, lo: usize, hi: usize) -> (r: Vec<Vec<char>>)
    requires
        lo <= hi <= t@.len(),
    ensures
        char_rows(r@) == words(t@.subrange(lo as int, hi as int)),
{
    let mut out: Vec<Vec<char>> = Vec::new();
    let mut i: usize = lo;
    while i < hi
        invariant
            lo <= i <= hi <= t@.len(),
            char_rows(out@) == words(t@.subrange(lo as int, i as int)),
        decreases hi - i,
    {
        let c = t[i];
        let ghost s = t@.subrange(lo as int, hi as int);
        let ghost k = (i - lo) as int;
        proof {
            lemma_words_take_step(s, k);
            assert(s.take(k) =~= t@.subrange(lo as int, i as int));
            assert(s.take(k + 1) =~= t@.subrange(lo as int, i + 1));
        }
        if is_ws(c) {
        } else if i == lo || is_ws(t[i - 1]) {
            let mut w: Vec<char> = Vec::new();
            w.push(c);
            proof {
                assert(w@ =~= seq![c]);
            }
            out.push(w);
            proof {
                assert(char_rows(out@) =~= words(s.take(k)).push(seq![c]));
            }
        } else {
            proof {
                lemma_words_nonempty(s.take(k));
            }
            let mut w = out.pop().unwrap();
            w.push(c);
            out.push(w);
            proof {
                let ws = words(s.take(k));
                assert(char_rows(out@) =~= ws.update(ws.len() - 1, ws.last().push(c)));
            }
        }
        i = i + 1;
    }
    proof {
        assert(t@.subrange(lo as int, i as int) =~= t@.subrange(lo as int, hi as int));
    }
    out
}

/// The words of `ws` joined by single spaces.
pub fn join_words(ws: &Vec<Vec<char>>) -> (r: Vec<char>)
    ensures
        r@ == join_spaces(char_rows(ws@)),
{
    let mut out: Vec<char> = Vec::new();
    let mut k: usize = 0;
    while k < ws.len()
        invariant
            k <= ws@.len(),
            out@ == join_spaces(char_rows(ws@).take(k as int)),
        decreases ws.len() - k,
    {
        let ghost all = char_rows(ws@);
        proof {
            assert(all.take(k + 1).drop_last() =~= all.take(k as int));
        }
        if k > 0 {
            out.push(' ');
        }
        let w = &ws[k];
        let mut j: usize = 0;
        let ghost base = out@;
        while j < w.len()
            invariant
                j <= w@.len(),
                out@ == base + w@.take(j as int),
            decreases w.len() - j,
        {
            out.push(w[j]);
            proof {
                assert(out@ =~= base + w@.take(j + 1));
            }
            j = j + 1;
        }
        proof {
            assert(w@.take(j as int) =~= w@);
            if k == 0 {
                assert(out@ =~= join_spaces(all.take(1)));
            } else {
                assert(out@ =~= join_spaces(all.take(k + 1)));
            }
        }
        k = k + 1;
    }
    proof {
        assert(char_rows(ws@).take(k as int) =~= char_rows(ws@));
    }
    out
}

/// `t[lo..hi]` with whitespace runs collapsed to one space and the ends trimmed.
pub fn normalize_range(t: &Vec<char>, lo: usize, hi: usize) -> (r: Vec<char>)
    requires
        lo <= hi <= t@.len(),
    ensures
        r@ == normalize_spec(t@.subrange(lo as int, hi as int)),
{
    let ws = split_words_range(t, lo, hi);
    join_words(&ws)
}

/// Collapses every whitespace run of `s` to a single space and trims both ends.
pub fn normalize_ws(s: &str) -> (r: String)
    ensures
        r@ == normalize_spec(s@),
{
    let t = chars_of(s);
    let n = normalize_range(&t, 0, t.len());
    proof {
        assert(t@.subrange(0, t@.len() as int) =~= t@);
    }
    string_of(n.as_slice())
}

} // verus!
