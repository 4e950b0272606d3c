pub mod text;
pub mod comments;
pub mod languages;
pub mod annotations;
pub mod watchfile;
pub mod diff;
pub mod scope;
pub mod output;
pub mod treesitter;
pub mod matching;
pub mod globs;
pub mod scan;
pub mod optparse;

pub use comments::CommentTokens;
pub use languages::comment_tokens;
