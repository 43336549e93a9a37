//! Input-method segmentation engine: turns romanized phonetic input into
//! target-script text by greedy longest-match lookup in a phrase dictionary,
//! resolving multi-candidate matches with a following digit or space.
pub mod text;
pub mod dict;
pub mod writer;
pub mod lex;
pub mod engine;
pub mod ipc;
pub mod laws;

pub use dict::Dictionary;
pub use engine::{query, look_up};
pub use ipc::IpcMem;
pub use lex::{Token, TokenQueue};
pub use text::{Utf8Str, BUF_SIZE};
pub use writer::{BufWriter, Writer};
