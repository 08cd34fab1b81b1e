//! A step-by-step interpreter for the SKI combinator calculus.
//!
//! A program is a tree of [`term::Node`] values: a tagged head together with
//! an ordered stack of arguments.  The parser turns source text into such a
//! tree, the canonicalizer flattens the topmost level of nesting into one
//! spine, the reducer performs a single rewrite under one of the three
//! combinator laws, and the printer serializes a tree back to text.

pub mod laws;
pub mod parse;
pub mod print;
pub mod reduce;
pub mod term;

pub use parse::ParseError;
pub use reduce::ArityError;
pub use reduce::StepOutcome;
pub use term::Node;
pub use term::NodeKind;
pub use term::Tag;
pub use term::Term;
