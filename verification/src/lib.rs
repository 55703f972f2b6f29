//! A small language for financial formulas.
//!
//! A program is read ([`lexer`], [`parser`]), run one step at a time
//! ([`interpreter`]), and traced into a graph of its assignments ([`dag`]) that
//! is written out again as a program with its literals turned into parameters
//! ([`render`]). Numbers are doubles, kept as their bits ([`number`]); what
//! takes floating point is asked of an implementation of
//! [`number::Numbers`].
//!
//! What each function does is stated over mathematical models: [`grammar`] for
//! the parser, [`machine`] for the interpreter, [`trace`] for the tracer. The
//! laws that relate them are proof functions named `law_...`: what programs mean
//! and that the machine runs them so ([`semantics`], [`adequacy`]), in which order
//! things happen and what calls hand over ([`evaluation`], [`calls`]), what numbers
//! are as real numbers and what is computed where arithmetic is exact
//! ([`exactness`]), what programs ask for and are given ([`fetching`], [`inputs`]),
//! what calls and blocks leave as it was ([`soundness`], [`effects`],
//! [`machine_laws`]), how texts and programs are read and put together
//! ([`lexer_laws`], [`parser_laws`], [`grouping`], [`accounts`]), how functions end
//! ([`endings`]), what stands where in a program and when it is the same ([`parts`],
//! [`sameness`]), what the graph knows, all of it, and shows ([`dag_laws`],
//! [`formulas`], [`completeness`], [`drawing`]), when what is written reads back
//! ([`spelling`], [`reading`]), when what is saved does what the program does
//! ([`rereading`], [`replay`]), and that both hold of what the parser lets through,
//! but for a few programs ([`sources`]).

pub mod accounts;
pub mod adequacy;
pub mod ast;
pub mod calls;
pub mod completeness;
pub mod dag;
pub mod dag_laws;
pub mod drawing;
pub mod effects;
pub mod endings;
pub mod evaluation;
pub mod exactness;
pub mod fetching;
pub mod formulas;
pub mod grammar;
pub mod graph;
pub mod grouping;
pub mod inputs;
pub mod interpreter;
pub mod json;
pub mod lexer;
pub mod lexer_laws;
pub mod machine;
pub mod machine_laws;
pub mod names;
pub mod number;
pub mod parser;
pub mod parser_laws;
pub mod parts;
pub mod purity;
pub mod reading;
pub mod render;
pub mod replay;
pub mod rereading;
pub mod sameness;
pub mod semantics;
pub mod soundness;
pub mod sources;
pub mod spelling;
pub mod stdlib;
pub mod text;
pub mod token;
pub mod trace;
pub mod value;
