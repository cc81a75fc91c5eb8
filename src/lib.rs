//! Text preparation for speech synthesis: numbers are spelled out, text is
//! split into tokens, and tokens are mapped to phoneme units through a
//! lexicon, with a predictor for the words it lacks.

pub mod text;
pub mod scan;
pub mod inflect_number;
pub mod tokenizer;
pub mod lexicon;
pub mod fast_speech;

pub use inflect_number::{convert_number, normalize_number, InflectError};
pub use tokenizer::{RegexpTokenizer, Tokenizer, TwitterTokenizer};
pub use lexicon::{Lexicon, LexiconError, Sound};
pub use fast_speech::{
    OovPolicy, PhonemizeError, PhonemsProcessor, PredictionError, Predictor, SilentPredictor, Unit,
};
