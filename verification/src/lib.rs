//! Parsing of mathematical expressions into a tree.
//!
//! The input text is turned into tokens by a left-to-right scan (`lexer`),
//! a fraction that opens a parenthesis is put in parentheses of its own, a
//! second pass makes implied multiplications and the parentheses around
//! the implied arguments of builtin functions explicit, and a Pratt parser
//! (`parser`) builds an expression tree that respects the order of
//! operations. Whitespace beside parentheses and operators does not change
//! the tokens (`spacing`), and a text `a o1 b o2 c` of decimal numbers is
//! read in the order of operations (`reading`, `order`).
pub mod text;
pub mod token;
pub mod lexer;
pub mod parser;
pub mod spacing;
pub mod reading;
pub mod order;
pub mod writing;
