//! The solvers by name.

use vstd::prelude::*;
use vstd::string::StringExecFns;
use std::str::FromStr;

verus! {

/// One of the four solvers.
#[derive(Debug, Clone, Copy, PartialEq, Eq)]
pub enum Algorithm {
    Constructive,
    LocalSearch,
    SimulatedAnnealing,
    Eda,
}

/// The solver that goes by the name `name`.
pub open spec fn named(name: Seq<char>) -> Option<Algorithm> {
    if name == "constructive"@ {
        Some(Algorithm::Constructive)
    } else if name == "LS"@ {
        Some(Algorithm::LocalSearch)
    } else if name == "SA"@ {
        Some(Algorithm::SimulatedAnnealing)
    } else if name == "EDA"@ {
        Some(Algorithm::Eda)
    } else {
        None
    }
}

/// What is said of a name that is none of a solver.
pub open spec fn refusal(name: Seq<char>) -> Seq<char> {
    "Invalid algorithm "@ + name + ". Valid options are: constructive, LS, SA and EDA"@
}

impl Algorithm {
    /// Finds the solver that goes by the name `name`: `constructive`, `LS`,
    /// `SA` or `EDA`.
    pub fn from_name(name: &str) -> (r: Option<Self>)
        ensures
            r == named(name@),
    {
        let given = name.to_owned();
        if given == "constructive".to_owned() {
            Some(Algorithm::Constructive)
        } else if given == "LS".to_owned() {
            Some(Algorithm::LocalSearch)
        } else if given == "SA".to_owned() {
            Some(Algorithm::SimulatedAnnealing)
        } else if given == "EDA".to_owned() {
            Some(Algorithm::Eda)
        } else {
            None
        }
    }

    /// Finds the solver that goes by the name `name`, or says which names
    /// there are.
    pub fn parse(name: &str) -> (r: Result<Self, String>)
        ensures
            match r {
                Ok(algorithm) => named(name@) == Some(algorithm),
                Err(message) => named(name@) is None && message@ == refusal(name@),
            },
    {
        match Self::from_name(name) {
            Some(algorithm) => Ok(algorithm),
            None => {
                let mut message = "Invalid algorithm ".to_owned();
                message.append(name);
                message.append(". Valid options are: constructive, LS, SA and EDA");
                Err(message)
            },
        }
    }
}

impl FromStr for Algorithm {
    type Err = String;

    /// Finds the solver that goes by the name `s`; the error says which
    /// names there are.
    fn from_str(s: &str) -> (r: Result<Self, Self::Err>)
        ensures
            match r {
                Ok(algorithm) => named(s@) == Some(algorithm),
                Err(message) => named(s@) is None && message@ == refusal(s@),
            },
    {
        Self::parse(s)
    }
}

} // verus!
