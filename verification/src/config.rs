//! What the caller chooses: whether intermediate grids are kept, and how cells are drawn.

use vstd::prelude::*;

verus! {

/// The options of a solve.
#[derive(Debug)]
pub struct Config {
    process: bool,
    empty_symbol: String,
    uncertain_symbol: String,
    filled_symbol: String,
}

/// The options as mathematical values.
pub ghost struct ConfigView {
    /// Whether the grid after every round that changed it is kept.
    pub process: bool,
    /// The text that stands for an empty cell.
    pub empty_symbol: Seq<char>,
    /// The text that stands for a cell not yet proven.
    pub uncertain_symbol: Seq<char>,
    /// The text that stands for a filled cell.
    pub filled_symbol: Seq<char>,
}

impl View for Config {
    type V = ConfigView;

    closed spec fn view(&self) -> ConfigView {
        ConfigView {
            process: self.process,
            empty_symbol: self.empty_symbol@,
            uncertain_symbol: self.uncertain_symbol@,
            filled_symbol: self.filled_symbol@,
        }
    }
}

impl Config {
    pub fn new(
        process: bool,
        empty_symbol: String,
        uncertain_symbol: String,
        filled_symbol: String,
    ) -> (config: Self)
        ensures
            config@ == (ConfigView {
                process,
                empty_symbol: empty_symbol@,
                uncertain_symbol: uncertain_symbol@,
                filled_symbol: filled_symbol@,
            }),
    {
        Self { process, empty_symbol, uncertain_symbol, filled_symbol }
    }

    pub fn process(&self) -> (on: bool)
        ensures
            on == self@.process,
    {
        self.process
    }

    pub fn empty_symbol(&self) -> (symbol: &str)
        ensures
            symbol@ == self@.empty_symbol,
    {
        self.empty_symbol.as_str()
    }

    pub fn uncertain_symbol(&self) -> (symbol: &str)
        ensures
            symbol@ == self@.uncertain_symbol,
    {
        self.uncertain_symbol.as_str()
    }

    pub fn filled_symbol(&self) -> (symbol: &str)
        ensures
            symbol@ == self@.filled_symbol,
    {
        self.filled_symbol.as_str()
    }
}

} // verus!
