//! Splitting text into tokens with a prioritized alternation of patterns.
use vstd::prelude::*;
use crate::text::{join, join_words, views};

verus! {

/// The tokens that the `regex` crate finds, left to right and without
/// overlap, for a pattern in a text; `None` where the pattern does not
/// compile.
pub uninterp spec fn regex_matches(pattern: Seq<char>, text: Seq<char>) -> Option<Seq<Seq<char>>>;

/// The character views of an optional list of tokens.
pub open spec fn tokens_view(r: Option<Vec<String>>) -> Option<Seq<Seq<char>>> {
    match r {
        Some(v) => Some(views(v@)),
        None => None,
    }
}

/// Relies on `regex::Regex::new` and `Regex::find_iter`: the compiled
/// pattern's successive leftmost-first matches, which depend on the pattern
/// and the text alone.
#[verifier::external_body]
fn find_all(pattern: &str, text: &str) -> (r: Option<Vec<String>>)
    ensures
        tokens_view(r) == regex_matches(pattern@, text@),
{
    match regex::Regex::new(pattern) {
        Ok(re) => Some(re.find_iter(text).map(|m| m.as_str().to_string()).collect()),
        Err(_) => None,
    }
}

/// Splits a text into tokens.
pub trait Tokenizer {
    /// The tokens of `text`, or `None` where the tokenizer's pattern does
    /// not compile.
    spec fn tokens_of(&self, text: Seq<char>) -> Option<Seq<Seq<char>>>;

    fn tokenize(&self, text: &str) -> (r: Option<Vec<String>>)
        ensures
            tokens_view(r) == self.tokens_of(text@),
    ;
}

/// A tokenizer made of one pattern.
#[derive(Clone, Debug)]
pub struct RegexpTokenizer {
    pub pattern: String,
}

impl RegexpTokenizer {
    pub fn build(pattern: &str) -> (r: Self)
        ensures
            r.pattern@ == pattern@,
    {
        RegexpTokenizer { pattern: pattern.to_owned() }
    }
}

/// Words of two or more word characters.
pub const WORD_PATTERN: &'static str = r"\b\w\w+\b";

impl Default for RegexpTokenizer {
    fn default() -> (r: Self)
        ensures
            r.pattern@ == WORD_PATTERN@,
    {
        RegexpTokenizer::build(WORD_PATTERN)
    }
}

impl Tokenizer for RegexpTokenizer {
    open spec fn tokens_of(&self, text: Seq<char>) -> Option<Seq<Seq<char>>> {
        regex_matches(self.pattern@, text)
    }

    fn tokenize(&self, text: &str) -> (r: Option<Vec<String>>) {
        find_all(self.pattern.as_str(), text)
    }
}

/// Emoticons, in both orientations.
pub const EMOTICONS: &'static str = r#"(?:[<>]?[:;=8][\-o\*']?[\)\]\(\[dDpP/:\}\{@\|\\]|[\)\]\(\[dDpP/:\}\{@\|\\][\-o\*']?[:;=8][<>]?|</?3)"#;

/// Links, with a scheme or a bare domain, and balanced parentheses.
pub const URLS: &'static str = r#"(?x)
                (?:
                    https?:
                    (?:
                        /{1,3}
                        |
                        [a-z0-9%]
                    )
                    |
                    [a-z0-9.\-]+[.]
                    (?:[a-z]{2,13})
                /
                )
                (?:
                    [^\s()<>{}\[\]]+
                    |
                    \([^\s()]*?\([^\s()]+\)[^\s()]*?\)
                    |
                    \([^\s]+?\)
                )+
                (?:
                    \([^\s()]*?\([^\s()]+\)[^\s()]*?\)
                    |
                    \([^\s]+?\)
                    |
                    [^\s`!()\[\]{};:'".,<>?«»“”‘’]
                )
                "#;

/// Markup tags.
pub const MARKUP: &'static str = r#"<[^>\s]+>"#;

/// ASCII arrows.
pub const ARROWS: &'static str = r#"[\-]+>|<[\-]+"#;

/// Mentions of a user name.
pub const MENTIONS: &'static str = r#"(?:@[\w_]+)"#;

/// Hashtags.
pub const HASHTAGS: &'static str = r#"(?:\#+[\w_]+[\w'_\-]*[\w_]+)"#;

/// Email addresses.
pub const EMAILS: &'static str = r#"[\w.+-]+@[\w-]+\.(?:[\w-]\.?)+[\w-]"#;

/// Emoji with skin tone modifiers and zero-width-joiner sequences.
pub const EMOJI: &'static str = r#".(?:[\U0001F3FB-\U0001F3FF]?(?:\u200d.[\U0001F3FB-\U0001F3FF]?)+|[\U0001F3FB-\U0001F3FF])"#;

/// Words, numbers with separators, ellipses, and any other single
/// non-space character.
pub const REMAINING: &'static str = r#"(?:[^\W\d_](?:[^\W\d_]|['-_])+[^\W\d_])|(?:[+\-]?\d+[,/.:-]\d+[+\-]?)|(?:[\w_]+)|(?:\.(?:\s*\.){1,})|(?:\S)"#;

/// The token classes, highest priority first.
pub open spec fn social_patterns() -> Seq<Seq<char>> {
    seq![
        EMOTICONS@,
        URLS@,
        MARKUP@,
        ARROWS@,
        MENTIONS@,
        HASHTAGS@,
        EMAILS@,
        EMOJI@,
        REMAINING@,
    ]
}

/// A tokenizer for social-media text: its patterns, highest priority
/// first, are tried as one alternation.
#[derive(Clone, Debug)]
pub struct TwitterTokenizer {
    pub patterns: Vec<String>,
}

impl TwitterTokenizer {
    /// The alternation of the patterns, in order.
    pub open spec fn alternation(&self) -> Seq<char> {
        join_words(views(self.patterns@), '|')
    }
}

impl Default for TwitterTokenizer {
    fn default() -> (r: Self)
        ensures
            views(r.patterns@) == social_patterns(),
    {
        let mut patterns: Vec<String> = Vec::new();
        patterns.push(EMOTICONS.to_owned());
        patterns.push(URLS.to_owned());
        patterns.push(MARKUP.to_owned());
        patterns.push(ARROWS.to_owned());
        patterns.push(MENTIONS.to_owned());
        patterns.push(HASHTAGS.to_owned());
        patterns.push(EMAILS.to_owned());
        patterns.push(EMOJI.to_owned());
        patterns.push(REMAINING.to_owned());
        assert(views(patterns@) =~= social_patterns());
        TwitterTokenizer { patterns }
    }
}

impl Tokenizer for TwitterTokenizer {
    open spec fn tokens_of(&self, text: Seq<char>) -> Option<Seq<Seq<char>>> {
        regex_matches(self.alternation(), text)
    }

    fn tokenize(&self, text: &str) -> (r: Option<Vec<String>>) {
        let pattern = join(&self.patterns, '|');
        find_all(pattern.as_str(), text)
    }
}

} // verus!
