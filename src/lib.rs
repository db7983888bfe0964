//! SLR(1) parse-table construction: a grammar text is read into a parse tree, the tree
//! into an indexed grammar with its FIRST and FOLLOW sets, the grammar into the canonical
//! collection of LR(0) item sets, and that automaton into an action table.
pub mod sorted_set;
pub mod grammar;
pub mod lr0;
pub mod automaton;
pub mod first_follow;
pub mod construct;
pub mod table;
pub mod lexer;
pub mod parser;
