//! A composable pattern-matching engine.
//!
//! Small matchers — literal text, a single code point, a code-point
//! class — combine into sequences, alternations and repetitions without
//! building an automaton. A matcher answers how many bytes of a text its
//! pattern consumes from the front; a capturing matcher additionally
//! reports the sub-spans that its capture nodes matched.
pub mod capture;
pub mod captures;
pub mod char_class;
pub mod complex_patterns;
pub mod match_iterator;
pub mod pattern;
pub mod patterns;
pub mod reps;
pub mod scan;
pub mod scan_term;
pub mod text;

pub use char_class::CharClass;
pub use patterns::cap;
pub use patterns::Pattern;
pub use reps::InvalidRepetitionConfiguration;
pub use reps::Reps;
pub use scan::Scan;
pub use scan::ScanResult;
pub use scan_term::ScanTerm;
