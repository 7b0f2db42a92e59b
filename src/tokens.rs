//! Query tokenization: lowercase, split on whitespace, drop stop words.
use vstd::prelude::*;
use crate::text::{char_rows, chars_of, split_words_range, string_views, strings_of, words};

verus! {

/// The lowercase form of `s`, as `str::to_lowercase` computes it.
pub uninterp spec fn lower_of(s: Seq<char>) -> Seq<char>;

/// Relies on `str::to_lowercase`: the result depends on the characters of `s` alone.
#[verifier::external_body]
fn lowercase(s: &str) -> (r: String)
    ensures
        r@ == lower_of(s@),
{
    s.to_lowercase()
}

/// The closed list of stop words.
pub open spec fn stop_words_spec() -> Seq<Seq<char>> {
    seq![
        seq!['t', 'h', 'e'],
        seq!['i', 's'],
        seq!['o', 'f'],
        seq!['a', 'n', 'd'],
        seq!['t', 'o'],
        seq!['f', 'o', 'r'],
        seq!['a'],
        seq!['a', 'n'],
        seq!['i', 'n'],
        seq!['o', 'n'],
        seq!['a', 't'],
        seq!['b', 'y'],
        seq!['w', 'i', 't', 'h'],
        seq!['f', 'r', 'o', 'm'],
        seq!['a', 's'],
        seq!['t', 'h', 'a', 't'],
        seq!['t', 'h', 'i', 's'],
        seq!['i', 't'],
        seq!['b', 'e'],
        seq!['a', 'r', 'e'],
    ]
}

/// Whether `w` is a stop word.
pub open spec fn is_stop_word_spec(w: Seq<char>) -> bool {
    stop_words_spec().contains(w)
}

/// The words of `ws` that are not stop words, in order.
pub open spec fn without_stop_words(ws: Seq<Seq<char>>) -> Seq<Seq<char>> {
    ws.filter(|w: Seq<char>| !is_stop_word_spec(w))
}

/// The tokens of an already lowercased text: its words that are not stop words.
pub open spec fn tokens_spec(s: Seq<char>) -> Seq<Seq<char>> {
    without_stop_words(words(s))
}

fn stop_words() -> (r: Vec<Vec<char>>)
    ensures
        char_rows(r@) == stop_words_spec(),
{
    let r = vec![
        vec!['t', 'h', 'e'],
        vec!['i', 's'],
        vec!['o', 'f'],
        vec!['a', 'n', 'd'],
        vec!['t', 'o'],
        vec!['f', 'o', 'r'],
        vec!['a'],
        vec!['a', 'n'],
        vec!['i', 'n'],
        vec!['o', 'n'],
        vec!['a', 't'],
        vec!['b', 'y'],
        vec!['w', 'i', 't', 'h'],
        vec!['f', 'r', 'o', 'm'],
        vec!['a', 's'],
        vec!['t', 'h', 'a', 't'],
        vec!['t', 'h', 'i', 's'],
        vec!['i', 't'],
        vec!['b', 'e'],
        vec!['a', 'r', 'e'],
    ];
    assert(r@.len() == 20);
    assert(r@[0]@ == stop_words_spec()[0]);
    assert(r@[1]@ == stop_words_spec()[1]);
    assert(r@[2]@ == stop_words_spec()[2]);
    assert(r@[3]@ == stop_words_spec()[3]);
    assert(r@[4]@ == stop_words_spec()[4]);
    assert(r@[5]@ == stop_words_spec()[5]);
    assert(r@[6]@ == stop_words_spec()[6]);
    assert(r@[7]@ == stop_words_spec()[7]);
    assert(r@[8]@ == stop_words_spec()[8]);
    assert(r@[9]@ == stop_words_spec()[9]);
    assert(r@[10]@ == stop_words_spec()[10]);
    assert(r@[11]@ == stop_words_spec()[11]);
    assert(r@[12]@ == stop_words_spec()[12]);
    assert(r@[13]@ == stop_words_spec()[13]);
    assert(r@[14]@ == stop_words_spec()[14]);
    assert(r@[15]@ == stop_words_spec()[15]);
    assert(r@[16]@ == stop_words_spec()[16]);
    assert(r@[17]@ == stop_words_spec()[17]);
    assert(r@[18]@ == stop_words_spec()[18]);
    assert(r@[19]@ == stop_words_spec()[19]);
    assert(char_rows(r@) =~= stop_words_spec());
    r
}

/// Whether two character vectors hold the same characters.
fn chars_eq(a: &Vec<char>, b: &Vec<char>) -> (r: bool)
    ensures
        r == (a@ == b@),
{
    if a.len() != b.len() {
        return false;
    }
    let mut i: usize = 0;
    while i < a.len()
        invariant
            i <= a@.len() == b@.len(),
            a@.take(i as int) == b@.take(i as int),
        decreases a.len() - i,
    {
        if a[i] != b[i] {
            assert(a@[i as int] != b@[i as int]);
            return false;
        }
        assert(a@.take(i + 1) =~= a@.take(i as int).push(a@[i as int]));
        assert(b@.take(i + 1) =~= b@.take(i as int).push(b@[i as int]));
        i = i + 1;
    }
    assert(a@ =~= a@.take(i as int));
    assert(b@ =~= b@.take(i as int));
    true
}

/// Whether `w` is one of the stop words.
pub fn is_stop_word(w: &Vec<char>) -> (r: bool)
    ensures
        r == is_stop_word_spec(w@),
{
    let list = stop_words();
    let mut k: usize = 0;
    while k < list.len()
        invariant
            k <= list@.len(),
            char_rows(list@) == stop_words_spec(),
            forall|j: int| 0 <= j < k ==> stop_words_spec()[j] != w@,
        decreases list.len() - k,
    {
        if chars_eq(&list[k], w) {
            assert(stop_words_spec()[k as int] == w@);
            return true;
        }
        k = k + 1;
    }
    false
}

/// The tokens of `text`, taken as already lowercased: its whitespace-separated
/// words, in order, without stop words.
pub fn tokenize_lowered(text: &str) -> (r: Vec<String>)
    ensures
        string_views(r@) == tokens_spec(text@),
{
    let t = chars_of(text);
    let ws = split_words_range(&t, 0, t.len());
    proof {
        assert(t@.subrange(0, t@.len() as int) =~= text@);
    }
    let ghost all = char_rows(ws@);
    let mut kept: Vec<Vec<char>> = Vec::new();
    let mut k: usize = 0;
    while k < ws.len()
        invariant
            k <= ws@.len(),
            all == char_rows(ws@),
            all == words(text@),
            char_rows(kept@) == without_stop_words(all.take(k as int)),
        decreases ws.len() - k,
    {
        proof {
            assert(all.take(k + 1).drop_last() =~= all.take(k as int));
            assert(all.take(k + 1).last() == ws@[k as int]@);
        }
        let w = &ws[k];
        proof {
            let pre = all.take(k as int);
            let nxt = all.take(k + 1);
            reveal(Seq::filter);
            assert(without_stop_words(nxt) == if !is_stop_word_spec(w@) {
                without_stop_words(pre).push(w@)
            } else {
                without_stop_words(pre)
            });
        }
        if !is_stop_word(w) {
            let ghost prev = char_rows(kept@);
            let mut copy: Vec<char> = Vec::new();
            let mut j: usize = 0;
            while j < w.len()
                invariant
                    j <= w@.len(),
                    copy@ == w@.take(j as int),
                decreases w.len() - j,
            {
                copy.push(w[j]);
                assert(copy@ =~= w@.take(j + 1));
                j = j + 1;
            }
            assert(copy@ =~= w@);
            kept.push(copy);
            assert(char_rows(kept@) =~= prev.push(w@));
        }
        k = k + 1;
    }
    proof {
        assert(all.take(k as int) =~= all);
    }
    strings_of(&kept)
}

/// The tokens of `query`: it is lowercased, split on whitespace, and stop
/// words are dropped; surviving tokens keep their order.
pub fn tokenize(query: &str) -> (r: Vec<String>)
    ensures
        string_views(r@) == tokens_spec(lower_of(query@)),
{
    let lowered = lowercase(query);
    tokenize_lowered(lowered.as_str())
}

} // verus!
