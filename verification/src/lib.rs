pub mod text;
pub mod paths;
pub mod encoding;
pub mod xml;
pub mod archive;
pub mod regexes;
pub mod html;
pub mod types;
pub mod cover;
pub mod epub;
pub mod lexical;
pub mod reader;
pub mod library;
