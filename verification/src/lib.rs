//! Decoder for the textual workspace dump of an external numeric
//! interpreter: a line-oriented, recursively structured text format holding
//! scalars, matrices, diagonal matrices, strings and nested cell arrays.
//! The decoder turns one raw dump into a typed value model and a
//! name-to-value workspace; a call-building layer renders values back into
//! interpreter call expressions.

pub mod call;
pub mod decode;
pub mod interpreter_results;
pub mod laws;
pub mod lex;
pub mod num;
pub mod octave_types;
pub mod text;

pub use call::build_call;
pub use call::render_value;
pub use interpreter_results::decode;
pub use interpreter_results::InterpreterResults;
pub use octave_types::OctaveTryIntoError;
pub use octave_types::OctaveType;
