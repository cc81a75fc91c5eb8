use rust_arxiv_podcast::fast_speech::{
    OovPolicy, PhonemizeError, PhonemsProcessor, PredictionError, Predictor, SilentPredictor,
};
use rust_arxiv_podcast::lexicon::{parse_line, split_chars, Lexicon, LexiconError, Sound};
use rust_arxiv_podcast::InflectError;

fn lines(ls: &[&str]) -> Vec<String> {
    ls.iter().map(|l| l.to_string()).collect()
}

fn resource() -> Vec<String> {
    lines(&[
        "hello\tHH AH0 L OW1",
        "World\tW ER1 L D",
        "HELLO\tX Y",
        "  two \t T UW1 ",
    ])
}

struct Failing;

impl Predictor for Failing {
    fn predict(&self, _token: &str) -> Result<Vec<String>, PredictionError> {
        Err(PredictionError::ModelError)
    }
}

struct Spelling;

impl Predictor for Spelling {
    fn predict(&self, token: &str) -> Result<Vec<String>, PredictionError> {
        Ok(token.chars().map(|c| c.to_string()).collect())
    }
}

#[test]
fn sound_from_phoneme_text() {
    let s = Sound::new_with_graphemes("HH AH0 L OW1", "hello");
    assert_eq!(s.phonemes(), &vec!["HH", "AH0", "L", "OW1"]);
    assert_eq!(s.graphemes(), &Some("hello".to_string()));
    let t = Sound::new(vec!["A".to_string()]);
    assert_eq!(t.graphemes(), &None);
}

#[test]
fn split_keeps_empty_pieces() {
    assert_eq!(split_chars("a\t\tb", '\t'), vec!["a", "", "b"]);
    assert_eq!(split_chars("", ' '), vec![""]);
}

#[test]
fn parse_line_trims_and_lowercases() {
    let (key, sound) = parse_line("  Two \t T UW1 ").unwrap();
    assert_eq!(key, "two");
    assert_eq!(sound.phonemes(), &vec!["T", "UW1"]);
    assert!(parse_line("no tab here").is_none());
    assert!(parse_line("a\tb\tc").is_none());
}

#[test]
fn lexicon_first_definition_wins() {
    let lex = Lexicon::from_lines(&resource()).unwrap();
    assert_eq!(lex.len(), 3);
    assert!(!lex.is_empty());
    assert_eq!(lex.get("hello").unwrap().phonemes(), &vec!["HH", "AH0", "L", "OW1"]);
    assert_eq!(lex.get("HeLLo").unwrap().phonemes(), &vec!["HH", "AH0", "L", "OW1"]);
    assert_eq!(lex.get("world").unwrap().phonemes(), &vec!["W", "ER1", "L", "D"]);
    assert!(lex.get("missing").is_none());
}

#[test]
fn lexicon_build_is_idempotent() {
    let a = Lexicon::from_lines(&resource()).unwrap();
    let b = Lexicon::from_lines(&resource()).unwrap();
    assert_eq!(a.len(), b.len());
    for key in ["hello", "world", "two", "missing", ""] {
        let pa = a.get(key).map(|s| s.phonemes().clone());
        let pb = b.get(key).map(|s| s.phonemes().clone());
        assert_eq!(pa, pb);
    }
}

#[test]
fn lexicon_malformed_line() {
    let r = Lexicon::from_lines(&lines(&["a\tA", "broken", "b\tB"]));
    assert!(matches!(r, Err(LexiconError::FormatError)));
    let empty = Lexicon::from_lines(&Vec::new()).unwrap();
    assert!(empty.is_empty());
    assert_eq!(empty.len(), 0);
}

#[test]
fn processor_lookup() {
    let p = PhonemsProcessor::build(&resource()).unwrap();
    assert_eq!(p.len(), 3);
    assert!(!p.is_empty());
    assert_eq!(p.get("two").unwrap().phonemes(), &vec!["T", "UW1"]);
    assert!(matches!(
        PhonemsProcessor::build(&lines(&[""])),
        Err(LexiconError::FormatError)
    ));
}

#[test]
fn phonemize_words_symbols_and_numbers() {
    let p = PhonemsProcessor::build(&resource()).unwrap();
    let units = p
        .phonemizer("Hello, World 2!", &SilentPredictor, &OovPolicy::Abort)
        .unwrap();
    assert_eq!(
        units,
        vec!["HH", "AH0", "L", "OW1", ",", "W", "ER1", "L", "D", "T", "UW1", "!"]
    );
}

#[test]
fn phonemize_unknown_words() {
    let p = PhonemsProcessor::build(&resource()).unwrap();
    let silent = p.phonemizer("hello bob", &SilentPredictor, &OovPolicy::Abort).unwrap();
    assert_eq!(silent, vec!["HH", "AH0", "L", "OW1", ""]);
    let spelled = p.phonemizer("bob", &Spelling, &OovPolicy::Abort).unwrap();
    assert_eq!(spelled, vec!["b", "o", "b"]);
}

#[test]
fn phonemize_prediction_policies() {
    let p = PhonemsProcessor::build(&resource()).unwrap();
    let r = p.phonemizer("hello bob", &Failing, &OovPolicy::Abort);
    assert!(matches!(r, Err(PhonemizeError::Prediction(PredictionError::ModelError))));
    let r = p
        .phonemizer("hello bob", &Failing, &OovPolicy::Placeholder("?".to_string()))
        .unwrap();
    assert_eq!(r, vec!["HH", "AH0", "L", "OW1", "?"]);
}

#[test]
fn phonemize_filters_and_expands() {
    let p = PhonemsProcessor::build(&resource()).unwrap();
    let units = p.units("i.e. caf\u{e9} $5 e.g.").unwrap();
    let words: Vec<String> = units
        .iter()
        .map(|u| match u {
            rust_arxiv_podcast::Unit::Symbol(s) => s.clone(),
            rust_arxiv_podcast::Unit::Known(ph) => ph.join(" "),
            rust_arxiv_podcast::Unit::Unknown(w) => w.clone(),
        })
        .collect();
    assert_eq!(
        words,
        vec!["that", "is", "caf", "five", "dollars", "for", "example"]
    );
}

#[test]
fn phonemize_is_deterministic() {
    let p = PhonemsProcessor::build(&resource()).unwrap();
    let text = "Hello world, I owe $3.25 to 2 friends!";
    let a = p.phonemizer(text, &Spelling, &OovPolicy::Abort).unwrap();
    let b = p.phonemizer(text, &Spelling, &OovPolicy::Abort).unwrap();
    assert_eq!(a, b);
}

#[test]
fn phonemize_reports_number_errors() {
    let p = PhonemsProcessor::build(&resource()).unwrap();
    let r = p.phonemizer("$.5", &SilentPredictor, &OovPolicy::Abort);
    assert!(matches!(r, Err(PhonemizeError::Inflect(InflectError::ParsingError))));
}

#[test]
fn sounds_compare_by_phonemes() {
    let a = Sound::new_with_graphemes("T UW1", "two");
    let b = Sound::new(vec!["T".to_string(), "UW1".to_string()]);
    let c = Sound::new_with_graphemes("T UW0", "two");
    assert!(a == b);
    assert!(a != c);
}
