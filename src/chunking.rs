//! Splitting text into bounded chunks along sentence boundaries.
use vstd::prelude::*;
use crate::text::{
    char_rows, chars_of, concat_all, lemma_concat_all_single, is_ws, is_ws_spec, lemma_concat_all_append, normalize_range,
    normalize_spec, string_of, string_views, strings_of, sub_chars,
};

verus! {

/// `s` cut into consecutive pieces of `m` characters, the last one possibly shorter.
pub open spec fn hard_split_spec(s: Seq<char>, m: nat) -> Seq<Seq<char>>
    decreases s.len(),
{
    if s.len() == 0 || m == 0 {
        seq![]
    } else if s.len() <= m {
        seq![s]
    } else {
        seq![s.take(m as int)] + hard_split_spec(s.skip(m as int), m)
    }
}

/// The pieces of a hard split concatenate back to the text, and each holds
/// between one and `m` characters.
pub proof fn lemma_hard_split_lossless(s: Seq<char>, m: nat)
    requires
        m >= 1,
    ensures
        concat_all(hard_split_spec(s, m)) == s,
        forall|i: int|
            0 <= i < hard_split_spec(s, m).len() ==> 0 < #[trigger] hard_split_spec(s, m)[i].len()
                <= m,
    decreases s.len(),
{
    let hs = hard_split_spec(s, m);
    if s.len() == 0 {
    } else if s.len() <= m {
        lemma_concat_all_single(s);
    } else {
        let rest = s.skip(m as int);
        lemma_hard_split_lossless(rest, m);
        lemma_concat_all_append(seq![s.take(m as int)], hard_split_spec(rest, m));
        lemma_concat_all_single(s.take(m as int));
        assert(s.take(m as int) + rest =~= s);
        assert forall|i: int| 0 <= i < hs.len() implies 0 < #[trigger] hs[i].len() <= m by {
            if i > 0 {
                assert(hs[i] == hard_split_spec(rest, m)[i - 1]);
            }
        }
    }
}

/// With a budget of one character, a hard split gives one piece per character.
pub proof fn lemma_hard_split_single_chars(s: Seq<char>)
    ensures
        hard_split_spec(s, 1).len() == s.len(),
        forall|i: int| 0 <= i < s.len() ==> #[trigger] hard_split_spec(s, 1)[i] == seq![s[i]],
    decreases s.len(),
{
    let hs = hard_split_spec(s, 1);
    if s.len() == 0 {
    } else if s.len() <= 1 {
        assert(s =~= seq![s[0]]);
    } else {
        let rest = s.skip(1);
        lemma_hard_split_single_chars(rest);
        assert(s.take(1) =~= seq![s[0]]);
        assert forall|i: int| 0 <= i < s.len() implies #[trigger] hs[i] == seq![s[i]] by {
            if i > 0 {
                assert(hs[i] == hard_split_spec(rest, 1)[i - 1]);
                assert(rest[i - 1] == s[i]);
            }
        }
    }
}

/// The hard split of `t[lo..hi]`, as character vectors.
fn hard_split_range(t: &Vec<char>, lo: usize, hi: usize, m: usize) -> (r: Vec<Vec<char>>)
    requires
        lo <= hi <= t@.len(),
        m >= 1,
    ensures
        char_rows(r@) == hard_split_spec(t@.subrange(lo as int, hi as int), m as nat),
{
    let mut out: Vec<Vec<char>> = Vec::new();
    let mut start: usize = lo;
    let ghost whole = t@.subrange(lo as int, hi as int);
    while hi - start > m
        invariant
            lo <= start <= hi <= t@.len(),
            m >= 1,
            whole == t@.subrange(lo as int, hi as int),
            char_rows(out@) + hard_split_spec(t@.subrange(start as int, hi as int), m as nat)
                == hard_split_spec(whole, m as nat),
        decreases hi - start,
    {
        let piece = sub_chars(t, start, start + m);
        let ghost cur = t@.subrange(start as int, hi as int);
        proof {
            assert(cur.take(m as int) =~= piece@);
            assert(cur.skip(m as int) =~= t@.subrange(start + m, hi as int));
        }
        let ghost prev = char_rows(out@);
        out.push(piece);
        start = start + m;
        proof {
            assert(char_rows(out@) =~= prev.push(cur.take(m as int)));
            assert(prev.push(cur.take(m as int)) + hard_split_spec(cur.skip(m as int), m as nat)
                =~= prev + hard_split_spec(cur, m as nat));
            assert(char_rows(out@) + hard_split_spec(t@.subrange(start as int, hi as int), m as nat)
                =~= hard_split_spec(whole, m as nat));
        }
    }
    if start < hi {
        let piece = sub_chars(t, start, hi);
        let ghost prev = char_rows(out@);
        out.push(piece);
        proof {
            assert(char_rows(out@) =~= prev.push(piece@));
            assert(prev + seq![piece@] =~= prev.push(piece@));
        }
    } else {
        proof {
            assert(char_rows(out@) + seq![] =~= char_rows(out@));
        }
    }
    out
}

/// Splits `s` into consecutive pieces of at most `max_chars` characters,
/// cutting only between characters.
pub fn hard_split(s: &str, max_chars: usize) -> (r: Vec<String>)
    requires
        max_chars >= 1,
    ensures
        string_views(r@) == hard_split_spec(s@, max_chars as nat),
        concat_all(string_views(r@)) == s@,
        forall|i: int|
            0 <= i < r@.len() ==> 0 < #[trigger] r@[i]@.len() <= max_chars,
{
    let t = chars_of(s);
    let parts = hard_split_range(&t, 0, t.len(), max_chars);
    proof {
        assert(t@.subrange(0, t@.len() as int) =~= s@);
        lemma_hard_split_lossless(s@, max_chars as nat);
    }
    let r = strings_of(&parts);
    proof {
        assert forall|i: int| 0 <= i < r@.len() implies 0 < #[trigger] r@[i]@.len()
            <= max_chars by {
            assert(string_views(r@)[i] == r@[i]@);
        }
    }
    r
}

/// Whether `c` ends a sentence.
pub open spec fn is_punct(c: char) -> bool {
    c == '.' || c == '!' || c == '?'
}

/// The end of the run of sentence punctuation that starts at `e`.
pub open spec fn punct_end(t: Seq<char>, e: int) -> int
    decreases t.len() - e,
{
    if 0 <= e < t.len() && is_punct(t[e]) {
        punct_end(t, e + 1)
    } else {
        e
    }
}

/// The end of the run of whitespace that starts at `e`.
pub open spec fn ws_end(t: Seq<char>, e: int) -> int
    decreases t.len() - e,
{
    if 0 <= e < t.len() && is_ws_spec(t[e]) {
        ws_end(t, e + 1)
    } else {
        e
    }
}

/// Whether a sentence can close at `e`: a punctuation run starts there and is
/// followed by whitespace or by the end of the text.
pub open spec fn closes_at(t: Seq<char>, e: int) -> bool {
    &&& 0 <= e < t.len()
    &&& is_punct(t[e])
    &&& (punct_end(t, e) == t.len() || is_ws_spec(t[punct_end(t, e)]))
}

/// The first position at or after `e` where a sentence can close.
pub open spec fn first_close(t: Seq<char>, e: int) -> Option<int>
    decreases t.len() - e,
{
    if e < 0 || e >= t.len() {
        None
    } else if closes_at(t, e) {
        Some(e)
    } else {
        first_close(t, e + 1)
    }
}

proof fn lemma_punct_end(t: Seq<char>, e: int)
    requires
        0 <= e <= t.len(),
    ensures
        e <= punct_end(t, e) <= t.len(),
    decreases t.len() - e,
{
    if e < t.len() && is_punct(t[e]) {
        lemma_punct_end(t, e + 1);
    }
}

proof fn lemma_ws_end(t: Seq<char>, e: int)
    requires
        0 <= e <= t.len(),
    ensures
        e <= ws_end(t, e) <= t.len(),
    decreases t.len() - e,
{
    if e < t.len() && is_ws_spec(t[e]) {
        lemma_ws_end(t, e + 1);
    }
}

proof fn lemma_first_close(t: Seq<char>, e: int)
    requires
        0 <= e,
    ensures
        first_close(t, e) matches Some(x) ==> e <= x < t.len() && closes_at(t, x),
    decreases t.len() - e,
{
    if e < t.len() && !closes_at(t, e) {
        lemma_first_close(t, e + 1);
    }
}

/// Where the scan resumes after the sentence that starts at `p` closes at `e`.
pub open spec fn resume_after(t: Seq<char>, e: int) -> int {
    ws_end(t, punct_end(t, e))
}

/// The sentence made of the body `t[p..e]` and the punctuation run at `e`.
pub open spec fn sentence_at(t: Seq<char>, p: int, e: int) -> Seq<char> {
    normalize_spec(t.subrange(p, e)) + t.subrange(e, punct_end(t, e))
}

/// The sentences found by scanning `t` from `p`: each body is the shortest
/// stretch followed by a punctuation run and then whitespace or the end;
/// a sentence whose normalized body is empty is left out.
pub open spec fn sentences_from(t: Seq<char>, p: int) -> Seq<Seq<char>>
    decreases t.len() - p via sentences_from_decreases
{
    if p < 0 || p >= t.len() {
        seq![]
    } else {
        match first_close(t, p + 1) {
            None => seq![],
            Some(e) => {
                let rest = sentences_from(t, resume_after(t, e));
                if normalize_spec(t.subrange(p, e)).len() == 0 {
                    rest
                } else {
                    seq![sentence_at(t, p, e)] + rest
                }
            },
        }
    }
}

/// Where the unterminated remainder of `t` starts, scanning from `p`.
pub open spec fn remainder_start(t: Seq<char>, p: int) -> int
    decreases t.len() - p via remainder_start_decreases
{
    if p < 0 || p >= t.len() {
        p
    } else {
        match first_close(t, p + 1) {
            None => p,
            Some(e) => remainder_start(t, resume_after(t, e)),
        }
    }
}

proof fn lemma_resume_after(t: Seq<char>, p: int)
    requires
        0 <= p < t.len(),
    ensures
        first_close(t, p + 1) matches Some(e) ==> p < e < t.len() && p < resume_after(t, e)
            <= t.len(),
{
    lemma_first_close(t, p + 1);
    if let Some(e) = first_close(t, p + 1) {
        lemma_punct_end(t, e);
        lemma_ws_end(t, punct_end(t, e));
    }
}

#[via_fn]
proof fn sentences_from_decreases(t: Seq<char>, p: int) {
    if 0 <= p < t.len() {
        lemma_resume_after(t, p);
    }
}

#[via_fn]
proof fn remainder_start_decreases(t: Seq<char>, p: int) {
    if 0 <= p < t.len() {
        lemma_resume_after(t, p);
    }
}

/// `s` without leading whitespace.
pub open spec fn trim_start(s: Seq<char>) -> Seq<char>
    decreases s.len(),
{
    if s.len() > 0 && is_ws_spec(s[0]) {
        trim_start(s.drop_first())
    } else {
        s
    }
}

/// `s` without trailing whitespace.
pub open spec fn trim_end(s: Seq<char>) -> Seq<char>
    decreases s.len(),
{
    if s.len() > 0 && is_ws_spec(s.last()) {
        trim_end(s.drop_last())
    } else {
        s
    }
}

/// `s` without leading or trailing whitespace.
pub open spec fn trim_spec(s: Seq<char>) -> Seq<char> {
    trim_end(trim_start(s))
}

/// The unterminated text after the last sentence of `t`, trimmed.
pub open spec fn remainder_spec(t: Seq<char>) -> Seq<char> {
    trim_spec(t.subrange(remainder_start(t, 0), t.len() as int))
}

/// The end of the punctuation run at `e`.
fn punct_end_exec(t: &Vec<char>, e: usize) -> (r: usize)
    requires
        e <= t@.len(),
    ensures
        r == punct_end(t@, e as int),
{
    let mut f: usize = e;
    while f < t.len() && (t[f] == '.' || t[f] == '!' || t[f] == '?')
        invariant
            e <= f <= t@.len(),
            punct_end(t@, e as int) == punct_end(t@, f as int),
        decreases t@.len() - f,
    {
        f = f + 1;
    }
    f
}

/// The end of the whitespace run at `e`.
fn ws_end_exec(t: &Vec<char>, e: usize) -> (r: usize)
    requires
        e <= t@.len(),
    ensures
        r == ws_end(t@, e as int),
{
    let mut f: usize = e;
    while f < t.len() && is_ws(t[f])
        invariant
            e <= f <= t@.len(),
            ws_end(t@, e as int) == ws_end(t@, f as int),
        decreases t@.len() - f,
    {
        f = f + 1;
    }
    f
}

/// The first position at or after `from` where a sentence can close.
fn find_close(t: &Vec<char>, from: usize) -> (r: Option<usize>)
    requires
        from <= t@.len(),
    ensures
        match r {
            Some(e) => first_close(t@, from as int) == Some(e as int),
            None => first_close(t@, from as int) is None,
        },
{
    let mut e: usize = from;
    while e < t.len()
        invariant
            from <= e <= t@.len(),
            first_close(t@, from as int) == first_close(t@, e as int),
        decreases t@.len() - e,
    {
        if t[e] == '.' || t[e] == '!' || t[e] == '?' {
            let f = punct_end_exec(t, e);
            proof {
                lemma_punct_end(t@, e as int);
            }
            if f == t.len() || is_ws(t[f]) {
                return Some(e);
            }
        }
        e = e + 1;
    }
    None
}

/// Scans `t` for sentences; returns them with the start of the remainder.
fn segment_chars(t: &Vec<char>) -> (r: (Vec<Vec<char>>, usize))
    ensures
        char_rows(r.0@) == sentences_from(t@, 0),
        r.1 == remainder_start(t@, 0),
        r.1 <= t@.len(),
{
    let mut out: Vec<Vec<char>> = Vec::new();
    let mut p: usize = 0;
    loop
        invariant
            p <= t@.len(),
            char_rows(out@) + sentences_from(t@, p as int) == sentences_from(t@, 0),
            remainder_start(t@, p as int) == remainder_start(t@, 0),
        decreases t@.len() - p,
    {
        if p >= t.len() {
            proof {
                assert(char_rows(out@) + seq![] =~= char_rows(out@));
            }
            return (out, p);
        }
        match find_close(t, p + 1) {
            None => {
                proof {
                    assert(char_rows(out@) + seq![] =~= char_rows(out@));
                }
                return (out, p);
            },
            Some(e) => {
                proof {
                    lemma_resume_after(t@, p as int);
                }
                let f = punct_end_exec(t, e);
                let m = ws_end_exec(t, f);
                let body = normalize_range(t, p, e);
                let ghost prev = char_rows(out@);
                if body.len() > 0 {
                    let mut sentence = body;
                    let mut k: usize = e;
                    let ghost base = sentence@;
                    proof {
                        lemma_punct_end(t@, e as int);
                    }
                    while k < f
                        invariant
                            e <= k <= f <= t@.len(),
                            sentence@ == base + t@.subrange(e as int, k as int),
                        decreases f - k,
                    {
                        sentence.push(t[k]);
                        proof {
                            assert(sentence@ =~= base + t@.subrange(e as int, k + 1));
                        }
                        k = k + 1;
                    }
                    out.push(sentence);
                    proof {
                        assert(char_rows(out@) =~= prev.push(sentence_at(t@, p as int, e as int)));
                        assert(char_rows(out@) + sentences_from(t@, m as int) =~= prev
                            + sentences_from(t@, p as int));
                    }
                }
                p = m;
            },
        }
    }
}

/// The sentences of a text and its unterminated remainder.
pub struct Segmentation {
    pub sentences: Vec<String>,
    pub remainder: String,
}

/// `t[lo..hi]` without leading or trailing whitespace.
fn trim_range(t: &Vec<char>, lo: usize, hi: usize) -> (r: Vec<char>)
    requires
        lo <= hi <= t@.len(),
    ensures
        r@ == trim_spec(t@.subrange(lo as int, hi as int)),
{
    let mut a: usize = lo;
    while a < hi && is_ws(t[a])
        invariant
            lo <= a <= hi <= t@.len(),
            trim_start(t@.subrange(lo as int, hi as int)) == trim_start(
                t@.subrange(a as int, hi as int),
            ),
        decreases hi - a,
    {
        proof {
            assert(t@.subrange(a as int, hi as int).drop_first() =~= t@.subrange(a + 1, hi as int));
        }
        a = a + 1;
    }
    let mut b: usize = hi;
    while b > a && is_ws(t[b - 1])
        invariant
            lo <= a <= b <= hi <= t@.len(),
            trim_end(t@.subrange(a as int, hi as int)) == trim_end(t@.subrange(a as int, b as int)),
        decreases b - a,
    {
        proof {
            assert(t@.subrange(a as int, b as int).drop_last() =~= t@.subrange(a as int, b - 1));
        }
        b = b - 1;
    }
    sub_chars(t, a, b)
}

/// Splits `text` into sentences ending in `.`, `!` or `?` followed by
/// whitespace or the end, with whitespace-normalized bodies, and returns the
/// trimmed text after the last of them as the remainder.
pub fn segment_sentences(text: &str) -> (r: Segmentation)
    ensures
        string_views(r.sentences@) == sentences_from(text@, 0),
        r.remainder@ == remainder_spec(text@),
{
    let t = chars_of(text);
    let (sents, start) = segment_chars(&t);
    let rem = trim_range(&t, start, t.len());
    let sentences = strings_of(&sents);
    let remainder = string_of(rem.as_slice());
    Segmentation { sentences, remainder }
}

/// The sentences of `t`, followed by its remainder when that is not empty.
pub open spec fn pieces_spec(t: Seq<char>) -> Seq<Seq<char>> {
    sentences_from(t, 0) + if remainder_spec(t).len() > 0 {
        seq![remainder_spec(t)]
    } else {
        seq![]
    }
}

/// The chunks for one piece: itself when it fits in `m` characters, else its hard split.
pub open spec fn piece_chunks(p: Seq<char>, m: nat) -> Seq<Seq<char>> {
    if p.len() <= m {
        seq![p]
    } else {
        hard_split_spec(p, m)
    }
}

/// The chunks of each piece of `ps`, in order, as one flat sequence.
pub open spec fn chunk_all(ps: Seq<Seq<char>>, m: nat) -> Seq<Seq<char>>
    decreases ps.len(),
{
    if ps.len() == 0 {
        seq![]
    } else {
        chunk_all(ps.drop_last(), m) + piece_chunks(ps.last(), m)
    }
}

/// The chunks of the text `t` under a budget of `m` characters.
pub open spec fn chunk_spec(t: Seq<char>, m: nat) -> Seq<Seq<char>> {
    chunk_all(pieces_spec(t), m)
}

/// Chunking a sequence of pieces loses nothing and keeps every chunk within budget.
pub proof fn lemma_chunk_all(ps: Seq<Seq<char>>, m: nat)
    requires
        m >= 1,
    ensures
        concat_all(chunk_all(ps, m)) == concat_all(ps),
        forall|i: int|
            0 <= i < chunk_all(ps, m).len() ==> #[trigger] chunk_all(ps, m)[i].len() <= m,
    decreases ps.len(),
{
    if ps.len() > 0 {
        let front = chunk_all(ps.drop_last(), m);
        let last = piece_chunks(ps.last(), m);
        lemma_chunk_all(ps.drop_last(), m);
        lemma_concat_all_append(front, last);
        if ps.last().len() <= m {
            lemma_concat_all_single(ps.last());
        } else {
            lemma_hard_split_lossless(ps.last(), m);
        }
        assert forall|i: int| 0 <= i < chunk_all(ps, m).len() implies #[trigger] chunk_all(
            ps,
            m,
        )[i].len() <= m by {
            if i >= front.len() {
                assert(chunk_all(ps, m)[i] == last[i - front.len()]);
            } else {
                assert(chunk_all(ps, m)[i] == front[i]);
            }
        }
    }
}

/// Concatenating the chunks of a text gives back its sentences and remainder
/// concatenated, so the split into chunks drops, repeats and reorders nothing;
/// every chunk holds at most `max_chars` characters.
pub proof fn lemma_chunks_reconstruct_pieces(t: Seq<char>, max_chars: nat)
    requires
        max_chars >= 1,
    ensures
        concat_all(chunk_spec(t, max_chars)) == concat_all(pieces_spec(t)),
        forall|i: int|
            0 <= i < chunk_spec(t, max_chars).len() ==> #[trigger] chunk_spec(t, max_chars)[i].len()
                <= max_chars,
{
    lemma_chunk_all(pieces_spec(t), max_chars);
}

/// Splits `text` into chunks of at most `max_chars` characters: each sentence
/// (and the remainder, when not empty) is one chunk if it fits, else is hard split.
pub fn chunk_text(text: &str, max_chars: usize) -> (r: Vec<String>)
    requires
        max_chars >= 1,
    ensures
        string_views(r@) == chunk_spec(text@, max_chars as nat),
        concat_all(string_views(r@)) == concat_all(pieces_spec(text@)),
        forall|i: int| 0 <= i < r@.len() ==> #[trigger] r@[i]@.len() <= max_chars,
{
    let t = chars_of(text);
    let (mut pieces, start) = segment_chars(&t);
    let rem = trim_range(&t, start, t.len());
    let ghost sents = char_rows(pieces@);
    if rem.len() > 0 {
        pieces.push(rem);
        proof {
            assert(char_rows(pieces@) =~= pieces_spec(text@));
        }
    } else {
        proof {
            assert(char_rows(pieces@) =~= pieces_spec(text@));
        }
    }
    let mut out: Vec<Vec<char>> = Vec::new();
    let mut k: usize = 0;
    while k < pieces.len()
        invariant
            k <= pieces@.len(),
            max_chars >= 1,
            char_rows(pieces@) == pieces_spec(text@),
            char_rows(out@) == chunk_all(char_rows(pieces@).take(k as int), max_chars as nat),
        decreases pieces.len() - k,
    {
        let piece = &pieces[k];
        let ghost prev = char_rows(out@);
        let ghost all = char_rows(pieces@);
        proof {
            assert(all.take(k + 1).drop_last() =~= all.take(k as int));
            assert(all.take(k + 1).last() == piece@);
        }
        if piece.len() <= max_chars {
            let copy = sub_chars(piece, 0, piece.len());
            proof {
                assert(copy@ =~= piece@);
            }
            out.push(copy);
            proof {
                assert(char_rows(out@) =~= prev + seq![piece@]);
            }
        } else {
            let mut parts = hard_split_range(piece, 0, piece.len(), max_chars);
            proof {
                assert(piece@.subrange(0, piece@.len() as int) =~= piece@);
            }
            let ghost ps = char_rows(parts@);
            out.append(&mut parts);
            proof {
                assert(char_rows(out@) =~= prev + ps);
            }
        }
        k = k + 1;
    }
    proof {
        assert(char_rows(pieces@).take(k as int) =~= char_rows(pieces@));
        lemma_chunks_reconstruct_pieces(text@, max_chars as nat);
    }
    let r = strings_of(&out);
    proof {
        assert forall|i: int| 0 <= i < r@.len() implies #[trigger] r@[i]@.len() <= max_chars by {
            assert(string_views(r@)[i] == r@[i]@);
        }
    }
    r
}

} // verus!
