//! The styles: each maps plain text to its Unicode-styled form.

pub mod accents;
pub mod bold;
pub mod handler;
pub mod italic;
pub mod letters;
pub mod shared;
pub mod strikethrough;
pub mod surline;
pub mod underline;

pub use bold::{BoldHandler, bold_handler};
pub use handler::FontHandler;
pub use italic::{ItalicHandler, italic_handler};
pub use strikethrough::{StrikethroughHandler, strikethrough_handler};
pub use surline::{SurlineHandler, surline_handler};
pub use underline::{UnderlineHandler, underline_handler};
