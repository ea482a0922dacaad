//! One module per subcommand, each with the rules that turn data into a run.
pub mod backtest;
pub mod meaning;
