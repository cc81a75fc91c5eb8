use rust_arxiv_podcast::tokenizer::{RegexpTokenizer, Tokenizer, TwitterTokenizer};

#[test]
fn test_tweet_tokenizer() {
    let tokenizer = TwitterTokenizer::default();
    let tokens = tokenizer
        .tokenize("This is a cooool #dummysmiley: :-) :-P <3 and some arrows < > -> <--")
        .unwrap();
    let expected: &[_] = &[
        "This",
        "is",
        "a",
        "cooool",
        "#dummysmiley",
        ":",
        ":-)",
        ":-P",
        "<3",
        "and",
        "some",
        "arrows",
        "<",
        ">",
        "->",
        "<--",
    ];
    assert_eq!(tokens, expected);
    println!("{:?}", tokens);
}

#[test]
fn test_tweet_tokenizer_usernname() {
    let tokenizer = TwitterTokenizer::default();
    let tokens = tokenizer.tokenize("@remy: This is way too much for you!!!").unwrap();
    let expected: &[_] = &[
        "@remy", ":", "This", "is", "way", "too", "much", "for", "you", "!", "!", "!",
    ];
    println!("{:?}", tokens);
    assert_eq!(tokens, expected);
}

#[test]
fn tweet_tokenizer_empty_text() {
    let tokens = TwitterTokenizer::default().tokenize("").unwrap();
    assert!(tokens.is_empty());
}

#[test]
fn regexp_tokenizer_words() {
    let tokens = RegexpTokenizer::default().tokenize("a bc, def!").unwrap();
    assert_eq!(tokens, vec!["bc", "def"]);
}

#[test]
fn regexp_tokenizer_bad_pattern() {
    assert!(RegexpTokenizer::build("(").tokenize("text").is_none());
}
