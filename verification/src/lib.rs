//! A response engine: rules that choose what a character says.
//!
//! A script defines criteria on the variables of a query, rules that name
//! criteria and response groups, and response groups that hand out
//! responses. The script is compiled into an engine; the engine, asked with
//! a request and the properties of a character and of the world, finds the
//! rule that matches with the highest score, carries out its instructions
//! and gives one response.
//!
//! Numbers are held by their IEEE 754 single-precision bit patterns, and
//! names by their bytes.
pub mod best;
pub mod builder;
pub mod chance;
pub mod compiler;
pub mod dispatch;
pub mod effect;
pub mod encoder;
pub mod engine;
pub mod hashing;
pub mod lexer;
pub mod literal;
pub mod model;
pub mod name;
pub mod num;
pub mod parser;
pub mod props;
pub mod scanner;
pub mod script;
pub mod soft;
pub mod subsets;
pub mod syntax;
pub mod table;
pub mod value;

pub use crate::builder::CompilerReport;
pub use crate::builder::ResponseEngineCompiler;
pub use crate::compiler::CompileError;
pub use crate::compiler::VariableLocation;
pub use crate::compiler::VariableUsage;
pub use crate::dispatch::ResponseDispatcher;
pub use crate::encoder::Encoder;
pub use crate::engine::ResponseEngine;
pub use crate::lexer::LexicalError;
pub use crate::lexer::Token;
pub use crate::model::Criterion;
pub use crate::model::Delivery;
pub use crate::model::Instruction;
pub use crate::model::Operation;
pub use crate::model::Predicate;
pub use crate::model::Response;
pub use crate::model::ResponseGroup;
pub use crate::model::Rule;
pub use crate::model::Type;
pub use crate::name::Name;
pub use crate::parser::Parser;
pub use crate::props::Props;
pub use crate::script::ScriptCompiler;
pub use crate::script::ScriptReport;
pub use crate::syntax::AddSpan;
pub use crate::syntax::Definition;
pub use crate::syntax::Location;
pub use crate::syntax::ParseError;
pub use crate::syntax::Span;
pub use crate::syntax::Spanned;
pub use crate::value::Value;
