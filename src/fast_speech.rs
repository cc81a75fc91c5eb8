//! From text to phoneme units: normalization, filtering, tokenization, then
//! lexicon lookup with a fallback predictor.
use vstd::prelude::*;
use crate::inflect_number::{normalize_number, normalized, text_view, InflectError};
use crate::lexicon::{
    lexicon_of, lookup, lower_of, lowercase, EntryView, Lexicon, LexiconError, Sound,
};
use crate::scan::rest;
use crate::text::{join_words, push_str, string_of_chars, views};
use crate::tokenizer::{regex_matches, social_patterns, Tokenizer, TwitterTokenizer};

verus! {

/// Why the predictor gave no phonemes for a word.
#[derive(Debug, Clone, Copy, PartialEq, Eq, Structural)]
pub enum PredictionError {
    ModelError,
}

/// Predicts the phonemes of a word that the lexicon lacks.
pub trait Predictor {
    fn predict(&self, token: &str) -> Result<Vec<String>, PredictionError>;
}

/// A predictor that answers every word with one empty phoneme.
pub struct SilentPredictor;

impl Predictor for SilentPredictor {
    fn predict(&self, _token: &str) -> Result<Vec<String>, PredictionError> {
        let mut v: Vec<String> = Vec::new();
        v.push(String::new());
        Ok(v)
    }
}

/// What to do when the predictor fails on a word.
#[derive(Clone, Debug)]
pub enum OovPolicy {
    /// The whole call fails.
    Abort,
    /// The word becomes this one unit.
    Placeholder(String),
}

/// Why a text could not be turned into phoneme units.
#[derive(Debug, Clone, Copy, PartialEq, Eq, Structural)]
pub enum PhonemizeError {
    Inflect(InflectError),
    /// The tokenizer's pattern does not compile.
    Pattern,
    Prediction(PredictionError),
}

/// One token of the text, classified.
#[derive(Clone, Debug)]
pub enum Unit {
    /// A token with a character outside `a-z`, passed through as it is.
    Symbol(String),
    /// A word of the lexicon, with its phonemes.
    Known(Vec<String>),
    /// A word that the lexicon lacks.
    Unknown(String),
}

pub enum UnitView {
    Symbol(Seq<char>),
    Known(Seq<Seq<char>>),
    Unknown(Seq<char>),
}

impl View for Unit {
    type V = UnitView;

    open spec fn view(&self) -> UnitView {
        match self {
            Unit::Symbol(s) => UnitView::Symbol(s@),
            Unit::Known(p) => UnitView::Known(views(p@)),
            Unit::Unknown(s) => UnitView::Unknown(s@),
        }
    }
}

/// The characters of `s` that satisfy `p`.
pub open spec fn keep(s: Seq<char>, p: spec_fn(char) -> bool) -> Seq<char>
    decreases s.len(),
{
    if s.len() == 0 {
        s
    } else if p(s.last()) {
        keep(s.drop_last(), p).push(s.last())
    } else {
        keep(s.drop_last(), p)
    }
}

pub open spec fn is_ascii_char(c: char) -> bool {
    (c as u32) < 128
}

/// `s` without its non-ASCII characters.
pub open spec fn ascii_only(s: Seq<char>) -> Seq<char> {
    keep(s, |c: char| is_ascii_char(c))
}

/// `s` with only the characters that survive filtering.
pub open spec fn allowed_only(s: Seq<char>) -> Seq<char> {
    keep(s, |c: char| allowed(c))
}

/// The characters that survive filtering.
pub open spec fn allowed(c: char) -> bool {
    c == ' ' || ('a' <= c <= 'z') || c == '\'' || c == '.' || c == ',' || c == '?' || c == '!'
        || c == '-'
}

/// Every occurrence of `pat`, left to right and without overlap, replaced
/// by `rep`.
pub open spec fn replaced(s: Seq<char>, pat: Seq<char>, rep: Seq<char>) -> Seq<char>
    decreases s.len(),
{
    if s.len() == 0 {
        s
    } else if 0 < pat.len() <= s.len() && s.subrange(0, pat.len() as int) == pat {
        rep + replaced(rest(s, pat.len() as int), pat, rep)
    } else {
        seq![s[0]] + replaced(s.drop_first(), pat, rep)
    }
}

/// The text that the tokenizer receives.
pub open spec fn prepared(s: Seq<char>) -> Result<Seq<char>, InflectError> {
    match normalized(ascii_only(s)) {
        Ok(n) => Ok(
            replaced(
                replaced(allowed_only(lower_of(n)), "i.e."@, "that is"@),
                "e.g."@,
                "for example"@,
            ),
        ),
        Err(e) => Err(e),
    }
}

/// A token made of `a-z` alone.
pub open spec fn is_word(t: Seq<char>) -> bool {
    forall|k: int| 0 <= k < t.len() ==> 'a' <= #[trigger] t[k] <= 'z'
}

/// How a token is read.
pub open spec fn unit_of(lex: Seq<EntryView>, t: Seq<char>) -> UnitView {
    if !is_word(t) {
        UnitView::Symbol(t)
    } else {
        match lookup(lex, lower_of(t)) {
            Some(s) => UnitView::Known(s.0),
            None => UnitView::Unknown(t),
        }
    }
}

/// The units of a text, for a lexicon and a tokenizer pattern.
pub open spec fn plan_of(lex: Seq<EntryView>, pattern: Seq<char>, text: Seq<char>) -> Result<
    Seq<UnitView>,
    PhonemizeError,
> {
    match prepared(text) {
        Err(e) => Err(PhonemizeError::Inflect(e)),
        Ok(p) => match regex_matches(pattern, p) {
            None => Err(PhonemizeError::Pattern),
            Some(ts) => Ok(ts.map_values(|t: Seq<char>| unit_of(lex, t))),
        },
    }
}

/// The characters of a prediction.
pub open spec fn prediction_view(r: Result<Vec<String>, PredictionError>) -> Result<
    Seq<Seq<char>>,
    PredictionError,
> {
    match r {
        Ok(v) => Ok(views(v@)),
        Err(e) => Err(e),
    }
}

/// The views of classified tokens.
pub open spec fn unit_views(us: Seq<Unit>) -> Seq<UnitView> {
    us.map_values(|u: Unit| u@)
}

/// The characters of predictions.
pub open spec fn prediction_views(ps: Seq<Result<Vec<String>, PredictionError>>) -> Seq<
    Result<Seq<Seq<char>>, PredictionError>,
> {
    ps.map_values(|p: Result<Vec<String>, PredictionError>| prediction_view(p))
}

/// `p` in front of a successful result.
pub open spec fn units_prefixed(
    p: Seq<Seq<char>>,
    r: Result<Seq<Seq<char>>, PredictionError>,
) -> Result<
    Seq<Seq<char>>,
    PredictionError,
> {
    match r {
        Ok(x) => Ok(p + x),
        Err(e) => Err(e),
    }
}

/// The phoneme units of classified tokens, where `ps[i]` is what the
/// predictor answered for the `i`-th unit if it is unknown.
pub open spec fn assembled(
    us: Seq<UnitView>,
    ps: Seq<Result<Seq<Seq<char>>, PredictionError>>,
    policy: OovPolicy,
) -> Result<Seq<Seq<char>>, PredictionError>
    decreases us.len(),
{
    if us.len() == 0 || ps.len() == 0 {
        Ok(Seq::empty())
    } else {
        let tail = assembled(us.drop_first(), ps.drop_first(), policy);
        match us[0] {
            UnitView::Symbol(t) => units_prefixed(seq![t], tail),
            UnitView::Known(p) => units_prefixed(p, tail),
            UnitView::Unknown(_) => match ps[0] {
                Ok(p) => units_prefixed(p, tail),
                Err(e) => match policy {
                    OovPolicy::Abort => Err(e),
                    OovPolicy::Placeholder(x) => units_prefixed(seq![x@], tail),
                },
            },
        }
    }
}

fn keep_ascii(s: &str) -> (r: Vec<char>)
    ensures
        r@ == ascii_only(s@),
{
    let mut out: Vec<char> = Vec::new();
    let mut it = s.chars();
    assert(s@.subrange(0, 0) =~= Seq::<char>::empty());
    for x in iter: it
        invariant
            iter.seq() == s@,
            out@ == ascii_only(iter.seq().subrange(0, iter.index() as int)),
    {
        let ghost k = iter.index() as int;
        assert(s@.subrange(0, k + 1).drop_last() =~= s@.subrange(0, k));
        assert(s@.subrange(0, k + 1).last() == x);
        if (x as u32) < 128 {
            out.push(x);
        }
    }
    assert(s@.subrange(0, s@.len() as int) =~= s@);
    out
}

fn is_allowed(c: char) -> (r: bool)
    ensures
        r == allowed(c),
{
    c == ' ' || (c >= 'a' && c <= 'z') || c == '\'' || c == '.' || c == ',' || c == '?' || c
        == '!' || c == '-'
}

fn keep_allowed(s: &str) -> (r: Vec<char>)
    ensures
        r@ == allowed_only(s@),
{
    let mut out: Vec<char> = Vec::new();
    let mut it = s.chars();
    assert(s@.subrange(0, 0) =~= Seq::<char>::empty());
    for x in iter: it
        invariant
            iter.seq() == s@,
            out@ == allowed_only(iter.seq().subrange(0, iter.index() as int)),
    {
        let ghost k = iter.index() as int;
        assert(s@.subrange(0, k + 1).drop_last() =~= s@.subrange(0, k));
        assert(s@.subrange(0, k + 1).last() == x);
        if is_allowed(x) {
            out.push(x);
        }
    }
    assert(s@.subrange(0, s@.len() as int) =~= s@);
    out
}

/// Whether `pat` occurs in `t` at `i`.
fn occurs_at(t: &Vec<char>, i: usize, pat: &Vec<char>) -> (r: bool)
    requires
        i <= t.len(),
    ensures
        r == (pat.len() <= t.len() - i && t@.subrange(i as int, i + pat.len()) == pat@),
{
    if pat.len() > t.len() - i {
        return false;
    }
    let mut k: usize = 0;
    while k < pat.len()
        invariant
            k <= pat.len() <= t.len() - i,
            t@.subrange(i as int, i + k) == pat@.subrange(0, k as int),
        decreases pat.len() - k,
    {
        if t[i + k] != pat[k] {
            assert(t@.subrange(i as int, i + pat.len())[k as int] != pat@[k as int]);
            return false;
        }
        k = k + 1;
        assert(t@.subrange(i as int, i + k) =~= pat@.subrange(0, k as int));
    }
    assert(pat@.subrange(0, pat.len() as int) =~= pat@);
    true
}

/// Replaces every occurrence of `pat`, left to right.
pub fn replace_all(t: &Vec<char>, pat: &str, rep: &str) -> (r: Vec<char>)
    ensures
        r@ == replaced(t@, pat@, rep@),
{
    let mut p: Vec<char> = Vec::new();
    push_str(&mut p, pat);
    assert(p@ =~= pat@);
    let mut out: Vec<char> = Vec::new();
    let mut i: usize = 0;
    assert(rest(t@, 0) =~= t@);
    assert(out@ + replaced(t@, pat@, rep@) =~= replaced(t@, pat@, rep@));
    while i < t.len()
        invariant
            i <= t.len(),
            p@ == pat@,
            replaced(t@, pat@, rep@) == out@ + replaced(rest(t@, i as int), pat@, rep@),
        decreases t.len() - i,
    {
        let ghost s = rest(t@, i as int);
        assert(s[0] == t@[i as int]);
        if p.len() > 0 && occurs_at(t, i, &p) {
            push_str(&mut out, rep);
            assert(s.subrange(0, pat@.len() as int) =~= t@.subrange(i as int, i + p.len()));
            assert(rest(s, pat@.len() as int) =~= rest(t@, (i + p.len()) as int));
            i = i + p.len();
        } else {
            out.push(t[i]);
            assert(0 < pat@.len() <= s.len() ==> s.subrange(0, pat@.len() as int)
                =~= t@.subrange(i as int, i + p.len()));
            assert(s.drop_first() =~= rest(t@, i + 1));
            i = i + 1;
        }
        assert(replaced(t@, pat@, rep@) == out@ + replaced(rest(t@, i as int), pat@, rep@));
    }
    assert(replaced(rest(t@, i as int), pat@, rep@) =~= Seq::empty());
    assert(out@ =~= out@ + Seq::<char>::empty());
    out
}

/// The text that the tokenizer receives: ASCII only, numbers spelled out,
/// lowercase, filtered, abbreviations expanded.
pub fn prepare(text: &str) -> (r: Result<String, InflectError>)
    ensures
        text_view(r) == prepared(text@),
{
    let ascii = string_of_chars(&keep_ascii(text));
    let normalized_text = match normalize_number(ascii.as_str()) {
        Ok(n) => n,
        Err(e) => {
            return Err(e);
        },
    };
    let lower = lowercase(normalized_text.as_str());
    let filtered = keep_allowed(lower.as_str());
    let a = replace_all(&filtered, "i.e.", "that is");
    let b = replace_all(&a, "e.g.", "for example");
    Ok(string_of_chars(&b))
}

/// A copy of a list of strings.
fn copy_strings(v: &Vec<String>) -> (r: Vec<String>)
    ensures
        views(r@) == views(v@),
{
    let mut out: Vec<String> = Vec::new();
    let mut i: usize = 0;
    while i < v.len()
        invariant
            i <= v.len(),
            views(out@) == views(v@.subrange(0, i as int)),
        decreases v.len() - i,
    {
        let ghost o = out@;
        let x = v[i].clone();
        assert(x@ == v@[i as int]@);
        out.push(x);
        assert(views(out@) =~= views(o).push(x@));
        assert(views(v@.subrange(0, i + 1)) =~= views(v@.subrange(0, i as int)).push(x@));
        i = i + 1;
    }
    assert(v@.subrange(0, v.len() as int) =~= v@);
    out
}

/// Whether a token is made of `a-z` alone.
fn is_word_token(t: &String) -> (r: bool)
    ensures
        r == is_word(t@),
{
    let mut it = t.as_str().chars();
    let mut all = true;
    for x in iter: it
        invariant
            iter.seq() == t@,
            all == is_word(iter.seq().subrange(0, iter.index() as int)),
    {
        let ghost k = iter.index() as int;
        assert(t@.subrange(0, k + 1)[k] == x);
        assert(forall|j: int| 0 <= j < k ==> t@.subrange(0, k + 1)[j] == t@.subrange(0, k)[j]);
        all = all && x >= 'a' && x <= 'z';
    }
    assert(t@.subrange(0, t@.len() as int) =~= t@);
    all
}

proof fn lemma_assembled_step(
    us: Seq<UnitView>,
    ps: Seq<Result<Seq<Seq<char>>, PredictionError>>,
    policy: OovPolicy,
    i: int,
)
    requires
        0 <= i < us.len(),
        us.len() == ps.len(),
    ensures
        assembled(us.subrange(i, us.len() as int), ps.subrange(i, ps.len() as int), policy)
            == ({
            let tail = assembled(
                us.subrange(i + 1, us.len() as int),
                ps.subrange(i + 1, ps.len() as int),
                policy,
            );
            match us[i] {
                UnitView::Symbol(t) => units_prefixed(seq![t], tail),
                UnitView::Known(p) => units_prefixed(p, tail),
                UnitView::Unknown(_) => match ps[i] {
                    Ok(p) => units_prefixed(p, tail),
                    Err(e) => match policy {
                        OovPolicy::Abort => Err(e),
                        OovPolicy::Placeholder(x) => units_prefixed(seq![x@], tail),
                    },
                },
            }
        }),
{
    assert(us.subrange(i, us.len() as int).drop_first() =~= us.subrange(i + 1, us.len() as int));
    assert(ps.subrange(i, ps.len() as int).drop_first() =~= ps.subrange(i + 1, ps.len() as int));
}

proof fn lemma_units_prefixed_assoc(
    a: Seq<Seq<char>>,
    b: Seq<Seq<char>>,
    r: Result<Seq<Seq<char>>, PredictionError>,
)
    ensures
        units_prefixed(a, units_prefixed(b, r)) == units_prefixed(a + b, r),
{
    if let Ok(x) = r {
        assert(a + (b + x) =~= (a + b) + x);
    }
}

/// The phoneme units of classified tokens; `predictions[i]` is what the
/// predictor answered for the `i`-th unit, and counts only where that unit
/// is unknown.
pub fn assemble(
    units: &Vec<Unit>,
    predictions: &Vec<Result<Vec<String>, PredictionError>>,
    policy: &OovPolicy,
) -> (r: Result<Vec<String>, PredictionError>)
    requires
        predictions.len() == units.len(),
    ensures
        prediction_view(r) == assembled(
            unit_views(units@),
            prediction_views(predictions@),
            *policy,
        ),
{
    let ghost us = unit_views(units@);
    let ghost ps = prediction_views(predictions@);
    let mut out: Vec<String> = Vec::new();
    let mut i: usize = 0;
    assert(us.subrange(0, us.len() as int) =~= us);
    assert(ps.subrange(0, ps.len() as int) =~= ps);
    assert(views(out@) + Seq::<Seq<char>>::empty() =~= views(out@));
    while i < units.len()
        invariant
            i <= units.len(),
            predictions.len() == units.len(),
            us == unit_views(units@),
            ps == prediction_views(predictions@),
            assembled(us, ps, *policy) == units_prefixed(
                views(out@),
                assembled(
                    us.subrange(i as int, us.len() as int),
                    ps.subrange(i as int, ps.len() as int),
                    *policy,
                ),
            ),
        decreases units.len() - i,
    {
        proof {
            lemma_assembled_step(us, ps, *policy, i as int);
        }
        let ghost before = views(out@);
        let ghost mut piece: Seq<Seq<char>> = Seq::empty();
        assert(us[i as int] == units@[i as int]@);
        assert(ps[i as int] == prediction_view(predictions@[i as int]));
        match &units[i] {
            Unit::Symbol(t) => {
                out.push(t.clone());
                proof {
                    piece = seq![t@];
                }
            },
            Unit::Known(p) => {
                let c = copy_strings(p);
                let mut k: usize = 0;
                while k < c.len()
                    invariant
                        k <= c.len(),
                        views(out@) == before + views(c@.subrange(0, k as int)),
                    decreases c.len() - k,
                {
                    let ghost o = out@;
                    let x = c[k].clone();
                    assert(x@ == c@[k as int]@);
                    out.push(x);
                    assert(views(out@) =~= views(o).push(x@));
                    assert(views(c@.subrange(0, k + 1)) =~= views(c@.subrange(0, k as int)).push(
                        x@,
                    ));
                    k = k + 1;
                }
                assert(c@.subrange(0, c.len() as int) =~= c@);
                proof {
                    piece = views(p@);
                }
            },
            Unit::Unknown(_) => {
                match &predictions[i] {
                    Ok(p) => {
                        let mut k: usize = 0;
                        while k < p.len()
                            invariant
                                k <= p.len(),
                                views(out@) == before + views(p@.subrange(0, k as int)),
                            decreases p.len() - k,
                        {
                            let ghost o = out@;
                            let x = p[k].clone();
                            assert(x@ == p@[k as int]@);
                            out.push(x);
                            assert(views(out@) =~= views(o).push(x@));
                            assert(views(p@.subrange(0, k + 1)) =~= views(p@.subrange(0, k as int)).push(
                        x@,
                    ));
                            k = k + 1;
                        }
                        assert(p@.subrange(0, p.len() as int) =~= p@);
                        proof {
                            piece = views(p@);
                        }
                    },
                    Err(e) => {
                        match policy {
                            OovPolicy::Abort => {
                                return Err(*e);
                            },
                            OovPolicy::Placeholder(x) => {
                                out.push(x.clone());
                                proof {
                                    piece = seq![x@];
                                }
                            },
                        }
                    },
                }
            },
        }
        proof {
            assert(views(out@) =~= before + piece);
            lemma_units_prefixed_assoc(
                before,
                piece,
                assembled(
                    us.subrange(i + 1, us.len() as int),
                    ps.subrange(i + 1, ps.len() as int),
                    *policy,
                ),
            );
        }
        i = i + 1;
    }
    assert(views(out@) + Seq::<Seq<char>>::empty() =~= views(out@));
    Ok(out)
}

/// The phoneme units of a result, or the predictor's error in it.
pub open spec fn outcome(r: Result<Vec<String>, PhonemizeError>) -> Result<
    Seq<Seq<char>>,
    PredictionError,
> {
    match r {
        Ok(v) => Ok(views(v@)),
        Err(PhonemizeError::Prediction(e)) => Err(e),
        Err(_) => Ok(Seq::empty()),
    }
}

/// The lexicon, the tokenizer, and the pipeline that uses them.
pub struct PhonemsProcessor {
    lexicon: Lexicon,
    tokenizer: TwitterTokenizer,
}

impl PhonemsProcessor {
    pub closed spec fn wf(&self) -> bool {
        self.lexicon.wf()
    }

    /// The entries of the lexicon.
    pub closed spec fn entries(&self) -> Seq<EntryView> {
        self.lexicon@
    }

    /// The tokenizer's pattern.
    pub closed spec fn pattern(&self) -> Seq<char> {
        self.tokenizer.alternation()
    }

    /// A processor whose lexicon is read from the lines of a resource and
    /// whose tokenizer is the social-media one.
    pub fn build(lines: &Vec<String>) -> (r: Result<Self, LexiconError>)
        ensures
            match r {
                Ok(p) => p.wf() && lexicon_of(views(lines@)) == Some(p.entries()) && p.pattern()
                    == join_words(social_patterns(), '|'),
                Err(e) => e == LexiconError::FormatError && lexicon_of(views(lines@)) is None,
            },
    {
        match Lexicon::from_lines(lines) {
            Ok(lexicon) => {
                let tokenizer = TwitterTokenizer::default();
                Ok(PhonemsProcessor { lexicon, tokenizer })
            },
            Err(e) => Err(e),
        }
    }

    pub fn len(&self) -> (r: usize)
        ensures
            r == self.entries().len(),
    {
        self.lexicon.len()
    }

    pub fn is_empty(&self) -> (r: bool)
        ensures
            r == (self.entries().len() == 0),
    {
        self.lexicon.is_empty()
    }

    /// The sound of a word, looked up by its lowercase form.
    pub fn get(&self, key: &str) -> (r: Option<&Sound>)
        requires
            self.wf(),
        ensures
            match r {
                Some(s) => lookup(self.entries(), lower_of(key@)) == Some(s@),
                None => lookup(self.entries(), lower_of(key@)) is None,
            },
    {
        self.lexicon.get(key)
    }

    /// The tokens of a text, classified.
    pub fn units(&self, text: &str) -> (r: Result<Vec<Unit>, PhonemizeError>)
        requires
            self.wf(),
        ensures
            match r {
                Ok(us) => plan_of(self.entries(), self.pattern(), text@) == Ok::<
                    Seq<UnitView>,
                    PhonemizeError,
                >(unit_views(us@)),
                Err(e) => plan_of(self.entries(), self.pattern(), text@) == Err::<
                    Seq<UnitView>,
                    PhonemizeError,
                >(e),
            },
    {
        let prepared_text = match prepare(text) {
            Ok(t) => t,
            Err(e) => {
                return Err(PhonemizeError::Inflect(e));
            },
        };
        let tokens = match self.tokenizer.tokenize(prepared_text.as_str()) {
            Some(ts) => ts,
            None => {
                return Err(PhonemizeError::Pattern);
            },
        };
        let ghost ts = views(tokens@);
        let mut out: Vec<Unit> = Vec::new();
        let mut i: usize = 0;
        while i < tokens.len()
            invariant
                self.wf(),
                i <= tokens.len(),
                ts == views(tokens@),
                unit_views(out@) == ts.subrange(0, i as int).map_values(
                    |t: Seq<char>| unit_of(self.entries(), t),
                ),
            decreases tokens.len() - i,
        {
            let t = &tokens[i];
            assert(ts[i as int] == t@);
            let unit = if !is_word_token(t) {
                Unit::Symbol(t.clone())
            } else {
                match self.lexicon.get(t.as_str()) {
                    Some(sound) => Unit::Known(copy_strings(sound.phonemes())),
                    None => Unit::Unknown(t.clone()),
                }
            };
            assert(unit@ == unit_of(self.entries(), t@));
            let ghost o = out@;
            out.push(unit);
            assert(unit_views(out@) =~= unit_views(o).push(unit@));
            assert(ts.subrange(0, i + 1) =~= ts.subrange(0, i as int).push(t@));
            assert(ts.subrange(0, i + 1).map_values(|t: Seq<char>| unit_of(self.entries(), t))
                =~= ts.subrange(0, i as int).map_values(
                |t: Seq<char>| unit_of(self.entries(), t),
            ).push(unit_of(self.entries(), t@)));
            i = i + 1;
        }
        assert(ts.subrange(0, tokens.len() as int) =~= ts);
        Ok(out)
    }

    /// The phoneme units of a text: symbols as they are, words from the
    /// lexicon, and the predictor's answer for the words it lacks.
    pub fn phonemizer<P: Predictor>(&self, text: &str, predictor: &P, policy: &OovPolicy) -> (r:
        Result<Vec<String>, PhonemizeError>)
        requires
            self.wf(),
        ensures
            plan_of(self.entries(), self.pattern(), text@) is Err ==> r == Err::<
                Vec<String>,
                PhonemizeError,
            >(plan_of(self.entries(), self.pattern(), text@)->Err_0),
            plan_of(self.entries(), self.pattern(), text@) is Ok ==> (r is Ok
                || r->Err_0 is Prediction),
            plan_of(self.entries(), self.pattern(), text@) is Ok ==> exists|
                ps: Seq<Result<Seq<Seq<char>>, PredictionError>>,
            |
                #![trigger assembled(
                    plan_of(self.entries(), self.pattern(), text@)->Ok_0,
                    ps,
                    *policy,
                )]
                ps.len() == plan_of(self.entries(), self.pattern(), text@)->Ok_0.len() && assembled(
                    plan_of(self.entries(), self.pattern(), text@)->Ok_0,
                    ps,
                    *policy,
                ) == outcome(r),
    {
        let units = match self.units(text) {
            Ok(us) => us,
            Err(e) => {
                return Err(e);
            },
        };
        let mut predictions: Vec<Result<Vec<String>, PredictionError>> = Vec::new();
        let mut i: usize = 0;
        while i < units.len()
            invariant
                i <= units.len(),
                predictions.len() == i,
            decreases units.len() - i,
        {
            let p = match &units[i] {
                Unit::Unknown(t) => predictor.predict(t.as_str()),
                _ => Ok(Vec::new()),
            };
            predictions.push(p);
            i = i + 1;
        }
        let r = assemble(&units, &predictions, policy);
        let ghost ps = prediction_views(predictions@);
        let ghost us = unit_views(units@);
        assert(ps.len() == us.len());
        let out = match r {
            Ok(v) => Ok(v),
            Err(e) => Err(PhonemizeError::Prediction(e)),
        };
        assert(assembled(us, ps, *policy) == outcome(out));
        assert(plan_of(self.entries(), self.pattern(), text@)->Ok_0 == us);
        out
    }
}

/// The pipeline is a function of the lexicon's entries, the tokenizer's
/// pattern, the text and the predictor's answers: the same ones give the
/// same phoneme units.
pub proof fn law_phonemize_deterministic(
    a: Seq<EntryView>,
    b: Seq<EntryView>,
    pattern: Seq<char>,
    text: Seq<char>,
    ps: Seq<Result<Seq<Seq<char>>, PredictionError>>,
    policy: OovPolicy,
)
    requires
        a == b,
        plan_of(a, pattern, text) is Ok,
    ensures
        plan_of(a, pattern, text) == plan_of(b, pattern, text),
        assembled(plan_of(a, pattern, text)->Ok_0, ps, policy) == assembled(
            plan_of(b, pattern, text)->Ok_0,
            ps,
            policy,
        ),
{
}

} // verus!
