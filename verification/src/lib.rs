//! A small build-automation library.
//!
//! A recipe document declares named targets ("instructions"), each with an
//! ordered list of shell-command steps and an ordered list of dependency
//! labels, plus named text-substitution variables ("ingredients").  The
//! library parses recipe text into a [`Recipe`], resolves dependency labels,
//! substitutes ingredient values into steps, and plans which instructions an
//! invocation runs and when a failing step stops the run.

pub mod bak;
pub mod errors;
pub mod execute;
pub mod ing;
pub mod pars;
pub mod text;

pub use bak::Baker;
pub use bak::Cli;
pub use errors::Error;
pub use errors::ParseError;
pub use execute::Bash;
pub use execute::ExecutionResult;
pub use execute::ExitKind;
pub use execute::Sh;
pub use execute::Shell;
pub use ing::Instruction;
pub use ing::Recipe;
pub use ing::RecipeEntry;
pub use pars::parse_recipe;
