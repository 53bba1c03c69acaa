pub mod cursor;
pub mod error;
pub mod grammar;
pub mod lexeme;
pub mod loader;
pub mod lr1;
pub mod text;
pub mod token;

pub use cursor::Cursor;
pub use error::LexerError;
pub use grammar::{Grammar, Production, Symbol};
pub use loader::GrammarError;
pub use lr1::{Action, Item, LR1Parser, SyntaxError, TableError, TreeNode};
pub use token::{KeyWords, Numbers, Operators, Point, Token, TokenKind, TokenType};
