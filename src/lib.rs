//! Reading GraphQL values, types, arguments and directives from a stream of
//! classified tokens, with names held borrowed or owned as the caller picks.
pub mod chars;
pub mod number;
pub mod literal;
pub mod block;
pub mod text;
pub mod ast;
pub mod token;
pub mod grammar;
pub mod parser;
