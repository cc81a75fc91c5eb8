//! The lexicon: graphemes mapped to their phoneme sequences.
use vstd::prelude::*;
use std::collections::HashMap;
use crate::text::{string_of_chars, views};

verus! {

broadcast use vstd::std_specs::hash::group_hash_axioms;

/// What `str::trim` leaves of a string.
pub uninterp spec fn trimmed(s: Seq<char>) -> Seq<char>;

/// What `str::to_lowercase` makes of a string.
pub uninterp spec fn lower_of(s: Seq<char>) -> Seq<char>;

/// Relies on `str::trim`: the string without its leading and trailing
/// white space, which depends on the string alone.
#[verifier::external_body]
pub(crate) fn trim(s: &str) -> (r: String)
    ensures
        r@ == trimmed(s@),
{
    s.trim().to_string()
}

/// Relies on `str::to_lowercase`: the lowercase form of the string, which
/// depends on the string alone.
#[verifier::external_body]
pub(crate) fn lowercase(s: &str) -> (r: String)
    ensures
        r@ == lower_of(s@),
{
    s.to_lowercase()
}

/// The pieces of `s` between the occurrences of `c`; at least one.
pub open spec fn split_on(s: Seq<char>, c: char) -> Seq<Seq<char>>
    decreases s.len(),
{
    if s.len() == 0 {
        seq![Seq::empty()]
    } else {
        let p = split_on(s.drop_last(), c);
        if s.last() == c {
            p.push(Seq::empty())
        } else {
            p.update(p.len() - 1, p.last().push(s.last()))
        }
    }
}

proof fn lemma_split_nonempty(s: Seq<char>, c: char)
    ensures
        split_on(s, c).len() >= 1,
    decreases s.len(),
{
    if s.len() > 0 {
        lemma_split_nonempty(s.drop_last(), c);
    }
}

/// Splits `s` at every `c`.
pub fn split_chars(s: &str, c: char) -> (r: Vec<String>)
    ensures
        views(r@) == split_on(s@, c),
{
    let mut pieces: Vec<String> = Vec::new();
    let mut cur: Vec<char> = Vec::new();
    let mut it = s.chars();
    assert(s@.subrange(0, 0) =~= Seq::<char>::empty());
    assert(views(pieces@).push(cur@) =~= split_on(s@.subrange(0, 0), c));
    for x in iter: it
        invariant
            iter.seq() == s@,
            views(pieces@).push(cur@) == split_on(iter.seq().subrange(0, iter.index() as int), c),
    {
        let ghost k = iter.index() as int;
        let ghost pre = s@.subrange(0, k);
        assert(s@.subrange(0, k + 1).drop_last() =~= pre);
        assert(s@.subrange(0, k + 1).last() == x);
        proof {
            lemma_split_nonempty(pre, c);
        }
        if x == c {
            pieces.push(string_of_chars(&cur));
            cur = Vec::new();
            assert(views(pieces@).push(cur@) =~= split_on(pre, c).push(Seq::empty()));
        } else {
            cur.push(x);
            let ghost p = split_on(pre, c);
            assert(views(pieces@).push(cur@) =~= p.update(p.len() - 1, p.last().push(x)));
        }
    }
    assert(s@.subrange(0, s@.len() as int) =~= s@);
    pieces.push(string_of_chars(&cur));
    assert(views(pieces@) =~= split_on(s@, c));
    pieces
}

/// A sequence of phonemes, with the graphemes it was read for, if known.
#[derive(Clone, Debug)]
pub struct Sound {
    phonemes: Vec<String>,
    graphemes: Option<String>,
}

/// What a sound holds: its phonemes, and its graphemes if known.
pub type SoundView = (Seq<Seq<char>>, Option<Seq<char>>);

impl View for Sound {
    type V = SoundView;

    closed spec fn view(&self) -> SoundView {
        (
            views(self.phonemes@),
            match self.graphemes {
                Some(g) => Some(g@),
                None => None,
            },
        )
    }
}

impl Sound {
    pub fn new(phonemes: Vec<String>) -> (r: Self)
        ensures
            r@ == (views(phonemes@), None::<Seq<char>>),
    {
        Sound { phonemes, graphemes: None }
    }

    /// A sound from phonemes separated by single spaces.
    pub fn new_with_graphemes(phonemes: &str, graphemes: &str) -> (r: Self)
        ensures
            r@ == (split_on(phonemes@, ' '), Some(graphemes@)),
    {
        Sound { phonemes: split_chars(phonemes, ' '), graphemes: Some(graphemes.to_owned()) }
    }

    pub fn phonemes(&self) -> (r: &Vec<String>)
        ensures
            views(r@) == self@.0,
    {
        &self.phonemes
    }

    pub fn graphemes(&self) -> (r: &Option<String>)
        ensures
            match r {
                Some(g) => self@.1 == Some(g@),
                None => self@.1 is None,
            },
    {
        &self.graphemes
    }
}

/// Two sounds are equal when their phonemes are; the graphemes are a label.
impl PartialEq for Sound {
    fn eq(&self, other: &Sound) -> (r: bool) {
        let a = &self.phonemes;
        let b = &other.phonemes;
        if a.len() != b.len() {
            return false;
        }
        let mut i: usize = 0;
        while i < a.len()
            invariant
                i <= a.len() == b.len(),
                a == &self.phonemes,
                b == &other.phonemes,
                forall|k: int| 0 <= k < i ==> a@[k]@ == b@[k]@,
            decreases a.len() - i,
        {
            if a[i] != b[i] {
                assert(views(a@)[i as int] != views(b@)[i as int]);
                return false;
            }
            i = i + 1;
        }
        assert(views(a@) =~= views(b@));
        true
    }
}

impl vstd::std_specs::cmp::PartialEqSpecImpl for Sound {
    open spec fn obeys_eq_spec() -> bool {
        true
    }

    open spec fn eq_spec(&self, other: &Sound) -> bool {
        self@.0 == other@.0
    }
}

/// An entry of the lexicon: a grapheme key and its sound.
pub type EntryView = (Seq<char>, SoundView);

/// The sound of the first entry with key `k`.
pub open spec fn lookup(es: Seq<EntryView>, k: Seq<char>) -> Option<SoundView>
    decreases es.len(),
{
    if es.len() == 0 {
        None
    } else {
        match lookup(es.drop_last(), k) {
            Some(v) => Some(v),
            None => if es.last().0 == k {
                Some(es.last().1)
            } else {
                None
            },
        }
    }
}

/// Without an entry for `k` there is no sound for it.
pub proof fn lemma_lookup_absent(es: Seq<EntryView>, k: Seq<char>)
    ensures
        lookup(es, k) is None <==> forall|p: int| 0 <= p < es.len() ==> es[p].0 != k,
    decreases es.len(),
{
    if es.len() > 0 {
        lemma_lookup_absent(es.drop_last(), k);
        if lookup(es, k) is None {
            assert forall|p: int| 0 <= p < es.len() implies es[p].0 != k by {
                if p < es.len() - 1 {
                    assert(es.drop_last()[p] == es[p]);
                }
            }
        } else if forall|p: int| 0 <= p < es.len() ==> es[p].0 != k {
            assert forall|p: int| 0 <= p < es.drop_last().len() implies es.drop_last()[p].0
                != k by {
                assert(es.drop_last()[p] == es[p]);
            }
            assert(es.last() == es[es.len() - 1]);
        }
    }
}

/// With distinct keys, the sound for a key is that of its entry.
pub proof fn lemma_lookup_found(es: Seq<EntryView>, p: int)
    requires
        0 <= p < es.len(),
        forall|i: int, j: int| 0 <= i < j < es.len() ==> es[i].0 != es[j].0,
    ensures
        lookup(es, es[p].0) == Some(es[p].1),
    decreases es.len(),
{
    let k = es[p].0;
    let d = es.drop_last();
    if p < es.len() - 1 {
        assert(d[p] == es[p]);
        lemma_lookup_found(d, p);
    } else {
        lemma_lookup_absent(d, k);
        assert forall|q: int| 0 <= q < d.len() implies d[q].0 != k by {
            assert(d[q] == es[q]);
        }
    }
}

/// The entry of the lexicon with key `k`.

/// The entry that a line of the resource defines: a grapheme and its
/// phonemes, separated by a tab; `None` where the line does not have
/// exactly two fields.
pub open spec fn parsed_entry(line: Seq<char>) -> Option<EntryView> {
    let fields = split_on(trimmed(line), '\t');
    if fields.len() == 2 {
        let g = lower_of(trimmed(fields[0]));
        Some((g, (split_on(trimmed(fields[1]), ' '), Some(g))))
    } else {
        None
    }
}

/// The entries that a resource defines, in order of first appearance; a
/// later entry for a grapheme already present is ignored. `None` where a
/// line is malformed.
pub open spec fn lexicon_of(lines: Seq<Seq<char>>) -> Option<Seq<EntryView>>
    decreases lines.len(),
{
    if lines.len() == 0 {
        Some(Seq::empty())
    } else {
        match (lexicon_of(lines.drop_last()), parsed_entry(lines.last())) {
            (Some(es), Some(e)) => Some(
                if lookup(es, e.0) is Some {
                    es
                } else {
                    es.push(e)
                },
            ),
            _ => None,
        }
    }
}

/// The grapheme of a well-formed line.
pub open spec fn line_key(line: Seq<char>) -> Seq<char> {
    let e = parsed_entry(line)->0;
    e.0
}

/// The sound of a well-formed line.
pub open spec fn line_sound(line: Seq<char>) -> SoundView {
    let e = parsed_entry(line)->0;
    e.1
}

/// Without a line for `k`, the lexicon has no sound for it.
proof fn lemma_unseen(lines: Seq<Seq<char>>, k: Seq<char>)
    requires
        lexicon_of(lines) is Some,
        forall|j: int|
            0 <= j < lines.len() ==> line_key(#[trigger] lines[j]) != k,
    ensures
        lookup(lexicon_of(lines)->0, k) is None,
    decreases lines.len(),
{
    if lines.len() > 0 {
        let d = lines.drop_last();
        assert forall|j: int| 0 <= j < d.len() implies line_key(#[trigger] d[j])
            != k by {
            assert(d[j] == lines[j]);
        }
        lemma_unseen(d, k);
        assert(line_key(lines[lines.len() - 1]) != k);
        let es = lexicon_of(d)->0;
        let e = parsed_entry(lines.last())->0;
        assert(es.push(e).drop_last() =~= es);
    }
}

/// A malformed line leaves no lexicon, whatever follows it.
proof fn lemma_malformed_stays(lines: Seq<Seq<char>>, i: int)
    requires
        0 <= i <= lines.len(),
        lexicon_of(lines.subrange(0, i)) is None,
    ensures
        lexicon_of(lines) is None,
    decreases lines.len() - i,
{
    if i < lines.len() {
        assert(lines.subrange(0, i + 1).drop_last() =~= lines.subrange(0, i));
        lemma_malformed_stays(lines, i + 1);
    } else {
        assert(lines.subrange(0, i) =~= lines);
    }
}

/// The first line for a grapheme decides its sound: later lines for the
/// same grapheme change nothing.
pub proof fn law_first_wins(lines: Seq<Seq<char>>, i: int)
    requires
        lexicon_of(lines) is Some,
        0 <= i < lines.len(),
        parsed_entry(lines[i]) is Some,
        forall|j: int|
            0 <= j < i ==> line_key(#[trigger] lines[j]) != line_key(lines[i]),
    ensures
        lookup(lexicon_of(lines)->0, line_key(lines[i])) == Some(
            line_sound(lines[i]),
        ),
    decreases lines.len(),
{
    let e = parsed_entry(lines[i])->0;
    let d = lines.drop_last();
    if i == lines.len() - 1 {
        assert forall|j: int| 0 <= j < d.len() implies line_key(#[trigger] d[j])
            != e.0 by {
            assert(d[j] == lines[j]);
        }
        lemma_unseen(d, e.0);
        let es = lexicon_of(d)->0;
        assert(es.push(e).drop_last() =~= es);
    } else {
        assert(d[i] == lines[i]);
        assert forall|j: int| 0 <= j < i implies line_key(#[trigger] d[j]) != e.0 by {
            assert(d[j] == lines[j]);
        }
        law_first_wins(d, i);
        let es = lexicon_of(d)->0;
        let x = parsed_entry(lines.last())->0;
        assert(es.push(x).drop_last() =~= es);
    }
}

/// Building is a function of the resource: two lexicons built from the same
/// lines have the same size and the same sound for every key.
pub proof fn law_build_idempotent(a: Seq<EntryView>, b: Seq<EntryView>, lines: Seq<Seq<char>>)
    requires
        lexicon_of(lines) == Some(a),
        lexicon_of(lines) == Some(b),
    ensures
        a.len() == b.len(),
        forall|k: Seq<char>| lookup(a, k) == lookup(b, k),
{
}

/// Reads one line of the resource.
pub fn parse_line(line: &str) -> (r: Option<(String, Sound)>)
    ensures
        match r {
            Some(e) => parsed_entry(line@) == Some((e.0@, e.1@)),
            None => parsed_entry(line@) is None,
        },
{
    let t = trim(line);
    let fields = split_chars(t.as_str(), '\t');
    if fields.len() != 2 {
        return None;
    }
    let g = lowercase(trim(fields[0].as_str()).as_str());
    let ph = trim(fields[1].as_str());
    let sound = Sound::new_with_graphemes(ph.as_str(), g.as_str());
    assert(views(fields@)[0] == fields@[0]@);
    assert(views(fields@)[1] == fields@[1]@);
    Some((g, sound))
}

/// A hash of a grapheme, to index the entries.
pub open spec fn key_hash(s: Seq<char>) -> nat
    decreases s.len(),
{
    if s.len() == 0 {
        0
    } else {
        (key_hash(s.drop_last()) * 31 + s.last() as u32 as nat) % 1_000_000_007
    }
}

fn hash_key(s: &String) -> (r: u64)
    ensures
        r == key_hash(s@),
{
    let mut h: u64 = 0;
    let mut it = s.as_str().chars();
    for x in iter: it
        invariant
            iter.seq() == s@,
            h == key_hash(iter.seq().subrange(0, iter.index() as int)),
            h < 1_000_000_007,
    {
        let ghost k = iter.index() as int;
        assert(s@.subrange(0, k + 1).drop_last() =~= s@.subrange(0, k));
        h = (h * 31 + x as u32 as u64) % 1_000_000_007;
    }
    assert(s@.subrange(0, s@.len() as int) =~= s@);
    h
}

/// Why a lexicon could not be built.
#[derive(Debug, Clone, Copy, PartialEq, Eq, Structural)]
pub enum LexiconError {
    /// A line does not have exactly two tab-separated fields.
    FormatError,
}

/// Graphemes mapped to sounds. Each grapheme has one entry.
pub struct Lexicon {
    entries: Vec<(String, Sound)>,
    index: HashMap<u64, Vec<usize>>,
}

impl View for Lexicon {
    type V = Seq<EntryView>;

    closed spec fn view(&self) -> Seq<EntryView> {
        self.entries@.map_values(|e: (String, Sound)| (e.0@, e.1@))
    }
}

impl Lexicon {
    /// Keys are distinct, and the index lists the position of every entry
    /// under the hash of its key, and nothing else.
    pub closed spec fn wf(&self) -> bool {
        &&& forall|i: int, j: int|
            0 <= i < j < self.entries.len() ==> #[trigger] self.entries@[i].0@
                != #[trigger] self.entries@[j].0@
        &&& forall|p: int|
            0 <= p < self.entries.len() ==> {
                let h = key_hash(#[trigger] self.entries@[p].0@) as u64;
                self.index@.contains_key(h) && self.index@[h]@.contains(p as usize)
            }
        &&& forall|h: u64, j: int|
            #![trigger self.index@[h]@[j]]
            self.index@.contains_key(h) && 0 <= j < self.index@[h]@.len() ==> {
                let p = self.index@[h]@[j] as int;
                p < self.entries.len() && key_hash(self.entries@[p].0@) == h
            }
    }

    pub fn new() -> (r: Self)
        ensures
            r.wf(),
            r@ == Seq::<EntryView>::empty(),
    {
        let r = Lexicon { entries: Vec::new(), index: HashMap::new() };
        assert(r@ =~= Seq::<EntryView>::empty());
        r
    }

    pub fn len(&self) -> (r: usize)
        ensures
            r == self@.len(),
    {
        self.entries.len()
    }

    pub fn is_empty(&self) -> (r: bool)
        ensures
            r == (self@.len() == 0),
    {
        self.entries.len() == 0
    }

    /// Where the entry with key `key` stands.
    fn position(&self, key: &String) -> (r: Option<usize>)
        requires
            self.wf(),
        ensures
            match r {
                Some(p) => p < self@.len() && self@[p as int].0 == key@,
                None => forall|p: int| 0 <= p < self@.len() ==> self@[p].0 != key@,
            },
    {
        let h = hash_key(key);
        match self.index.get(&h) {
            None => {
                assert forall|p: int| 0 <= p < self@.len() implies self@[p].0 != key@ by {
                    let e = self.entries@[p];
                    assert(self@[p].0 == e.0@);
                }
                None
            },
            Some(bucket) => {
                let mut j: usize = 0;
                while j < bucket.len()
                    invariant
                        self.wf(),
                        h == key_hash(key@),
                        self.index@.contains_key(h),
                        bucket@ == self.index@[h]@,
                        j <= bucket.len(),
                        forall|k: int| 0 <= k < j ==> self@[bucket@[k] as int].0 != key@,
                    decreases bucket.len() - j,
                {
                    let p = bucket[j];
                    assert(self.index@[h]@[j as int] == p);
                    assert(self@[p as int].0 == self.entries@[p as int].0@);
                    if self.entries[p].0 == *key {
                        return Some(p);
                    }
                    j = j + 1;
                }
                assert forall|p: int| 0 <= p < self@.len() implies self@[p].0 != key@ by {
                    let e = self.entries@[p];
                    assert(self@[p].0 == e.0@);
                    if e.0@ == key@ {
                        let k = bucket@.index_of(p as usize);
                        assert(self@[bucket@[k] as int].0 != key@);
                    }
                }
                None
            },
        }
    }

    /// Adds an entry unless its key is present already.
    pub fn insert_first(&mut self, key: String, sound: Sound)
        requires
            old(self).wf(),
        ensures
            final(self).wf(),
            final(self)@ == if lookup(old(self)@, key@) is Some {
                old(self)@
            } else {
                old(self)@.push((key@, sound@))
            },
    {
        proof {
            lemma_lookup_absent(self@, key@);
        }
        if self.position(&key).is_some() {
            return;
        }
        let h = hash_key(&key);
        let p = self.entries.len();
        let mut bucket: Vec<usize> = match self.index.get(&h) {
            Some(b) => b.clone(),
            None => Vec::new(),
        };
        let ghost old_bucket = bucket@;
        bucket.push(p);
        let ghost old_entries = self.entries@;
        let ghost old_index = self.index@;
        self.index.insert(h, bucket);
        self.entries.push((key, sound));
        proof {
            assert(self.entries@[p as int] == (key, sound));
            assert forall|q: int| 0 <= q < p implies #[trigger] self.entries@[q]
                == old_entries[q] by {}
            assert forall|i: int, j: int|
                0 <= i < j < self.entries.len() implies #[trigger] self.entries@[i].0@
                != #[trigger] self.entries@[j].0@ by {
                if j == p {
                    assert(self@[i].0 == self.entries@[i].0@);
                    assert(old(self)@[i].0 == old_entries[i].0@);
                }
            }
            assert forall|q: int| 0 <= q < self.entries.len() implies {
                let hq = key_hash(#[trigger] self.entries@[q].0@) as u64;
                self.index@.contains_key(hq) && self.index@[hq]@.contains(q as usize)
            } by {
                let hq = key_hash(self.entries@[q].0@) as u64;
                if q < p {
                    assert(old_index.contains_key(hq) && old_index[hq]@.contains(q as usize));
                    if hq == h {
                        let k = old_index[hq]@.index_of(q as usize);
                        assert(self.index@[hq]@[k] == q as usize);
                    }
                } else {
                    assert(self.index@[hq]@[old_bucket.len() as int] == p);
                }
            }
            assert forall|g: u64, j: int|
                #![trigger self.index@[g]@[j]]
                self.index@.contains_key(g) && 0 <= j < self.index@[g]@.len() implies {
                let q = self.index@[g]@[j] as int;
                q < self.entries.len() && key_hash(self.entries@[q].0@) == g
            } by {
                if g == h && j < old_bucket.len() {
                    if old_index.contains_key(h) {
                        assert(old_index[h]@[j] == self.index@[g]@[j]);
                    }
                }
            }
            assert(self@ =~= old(self)@.push((key@, sound@)));
        }
    }

    /// The sound of a word, looked up by its lowercase form.
    pub fn get(&self, key: &str) -> (r: Option<&Sound>)
        requires
            self.wf(),
        ensures
            match r {
                Some(s) => lookup(self@, lower_of(key@)) == Some(s@),
                None => lookup(self@, lower_of(key@)) is None,
            },
    {
        let k = lowercase(key);
        match self.position(&k) {
            Some(p) => {
                proof {
                    lemma_lookup_found(self@, p as int);
                }
                Some(&self.entries[p].1)
            },
            None => {
                proof {
                    lemma_lookup_absent(self@, k@);
                }
                None
            },
        }
    }

    /// Builds a lexicon from the lines of a resource; the first line for a
    /// grapheme wins.
    pub fn from_lines(lines: &Vec<String>) -> (r: Result<Lexicon, LexiconError>)
        ensures
            match r {
                Ok(l) => l.wf() && lexicon_of(views(lines@)) == Some(l@),
                Err(e) => e == LexiconError::FormatError && lexicon_of(views(lines@)) is None,
            },
    {
        let mut lex = Lexicon::new();
        let mut i: usize = 0;
        while i < lines.len()
            invariant
                i <= lines.len(),
                lex.wf(),
                lexicon_of(views(lines@).subrange(0, i as int)) == Some(lex@),
            decreases lines.len() - i,
        {
            let ghost pre = views(lines@).subrange(0, i + 1);
            assert(pre.drop_last() =~= views(lines@).subrange(0, i as int));
            assert(pre.last() == lines@[i as int]@);
            match parse_line(lines[i].as_str()) {
                Some((key, sound)) => {
                    lex.insert_first(key, sound);
                },
                None => {
                    proof {
                        lemma_malformed_stays(views(lines@), i + 1);
                    }
                    return Err(LexiconError::FormatError);
                },
            }
            i = i + 1;
        }
        assert(views(lines@).subrange(0, lines.len() as int) =~= views(lines@));
        Ok(lex)
    }
}

} // verus!
