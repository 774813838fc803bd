//! The in-memory message and its wire form.

pub mod answer;
pub mod error;
pub mod header;
pub mod message;
pub mod name;
pub mod question;
pub mod wire;

pub use answer::{Answer, AnswerBuilder, AnswerView};
pub use error::{BuildError, DecodeError};
pub use header::{Header, HeaderBuilder};
pub use message::{Message, MessageView};
pub use question::{Question, QuestionBuilder, QuestionView};
