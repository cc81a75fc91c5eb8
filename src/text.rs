//! Character-level helpers shared by the normalizer and the phonemizer.
use vstd::prelude::*;

verus! {

/// The words of a sentence, separated by single `sep` characters.
pub open spec fn join_words(ws: Seq<Seq<char>>, sep: char) -> Seq<char>
    decreases ws.len(),
{
    if ws.len() == 0 {
        Seq::empty()
    } else if ws.len() == 1 {
        ws[0]
    } else {
        join_words(ws.drop_last(), sep) + seq![sep] + ws.last()
    }
}

/// Joining a word in front of a non-empty sentence puts one separator between.
pub proof fn lemma_join_front(w: Seq<char>, ws: Seq<Seq<char>>, sep: char)
    requires
        ws.len() > 0,
    ensures
        join_words(seq![w] + ws, sep) == w + seq![sep] + join_words(ws, sep),
    decreases ws.len(),
{
    let all = seq![w] + ws;
    if ws.len() == 1 {
        assert(all.drop_last() =~= seq![w]);
        assert(join_words(seq![w], sep) == w);
        assert(all.last() == ws[0]);
        assert(join_words(ws, sep) == ws[0]);
        assert(join_words(all, sep) == join_words(all.drop_last(), sep) + seq![sep] + all.last());
    } else {
        lemma_join_front(w, ws.drop_last(), sep);
        assert(all.drop_last() =~= seq![w] + ws.drop_last());
        assert(all.last() == ws.last());
        assert(join_words(all, sep) == join_words(all.drop_last(), sep) + seq![sep] + all.last());
        assert(join_words(ws, sep) == join_words(ws.drop_last(), sep) + seq![sep] + ws.last());
        assert(join_words(all, sep) =~= w + seq![sep] + join_words(ws, sep));
    }
}

/// The character views of a vector of strings.
pub open spec fn views(v: Seq<String>) -> Seq<Seq<char>> {
    v.map_values(|s: String| s@)
}

/// Appends the characters of `s` to `out`.
pub fn push_str(out: &mut Vec<char>, s: &str)
    ensures
        final(out)@ == old(out)@ + s@,
{
    let ghost start = out@;
    let mut it = s.chars();
    for c in iter: it
        invariant
            iter.seq() == s@,
            out@ == start + iter.seq().subrange(0, iter.index() as int),
    {
        out.push(c);
        proof {
            assert(out@ =~= start + iter.seq().subrange(0, iter.index() + 1));
        }
    }
    assert(out@ =~= start + s@);
}

/// Relies on `String`'s `FromIterator<char>`: the string holds the
/// characters in order.
#[verifier::external_body]
pub(crate) fn string_of_chars(v: &Vec<char>) -> (r: String)
    ensures
        r@ == v@,
{
    v.iter().collect()
}

/// Joins words with single `sep` characters.
pub fn join(words: &Vec<String>, sep: char) -> (r: String)
    ensures
        r@ == join_words(views(words@), sep),
{
    let mut out: Vec<char> = Vec::new();
    let mut i: usize = 0;
    while i < words.len()
        invariant
            i <= words.len(),
            out@ == join_words(views(words@.subrange(0, i as int)), sep),
        decreases words.len() - i,
    {
        let ghost before = out@;
        if i > 0 {
            out.push(sep);
        }
        push_str(&mut out, words[i].as_str());
        proof {
            let ws = views(words@.subrange(0, i + 1));
            assert(ws.drop_last() =~= views(words@.subrange(0, i as int)));
            if i == 0 {
                assert(out@ =~= ws[0]);
            } else {
                assert(out@ =~= join_words(ws.drop_last(), sep) + seq![sep] + ws.last());
            }
        }
        i = i + 1;
    }
    assert(words@.subrange(0, words.len() as int) =~= words@);
    string_of_chars(&out)
}

} // verus!
