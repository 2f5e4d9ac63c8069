//! The configuration that a synchronisation pass runs with.
use vstd::prelude::*;

verus! {

/// Settings of a synchronisation pass.
#[derive(Debug, Clone, Copy)]
pub struct Config {
    /// The staleness window, in seconds: a room last checked within it is not
    /// rechecked.
    query_duration: i64,
    /// How many rooms one remote query asks for; 1 to 100 is recommended.
    query_amount: usize,
}

/// A configuration value that cannot be used.
#[derive(Debug, Clone, Copy, PartialEq, Eq, Structural)]
pub enum ConfigError {
    /// The staleness window is negative.
    NegativeDuration,
    /// The batch size is zero.
    ZeroQueryAmount,
}

impl Config {
    #[verifier::type_invariant]
    spec fn inv(&self) -> bool {
        self.query_duration >= 0 && self.query_amount >= 1
    }

    /// The staleness window, in seconds.
    pub closed spec fn spec_duration(&self) -> i64 {
        self.query_duration
    }

    /// The batch size.
    pub closed spec fn spec_query_amount(&self) -> usize {
        self.query_amount
    }

    /// A configuration with a staleness window of `query_duration` seconds and
    /// batches of `query_amount` rooms. A negative window or a zero batch size is
    /// refused.
    pub fn new(query_duration: i64, query_amount: usize) -> (r: Result<Config, ConfigError>)
        ensures
            query_duration < 0 ==> r == Err::<Config, ConfigError>(ConfigError::NegativeDuration),
            query_duration >= 0 && query_amount == 0 ==> r == Err::<Config, ConfigError>(
                ConfigError::ZeroQueryAmount,
            ),
            query_duration >= 0 && query_amount >= 1 ==> (r matches Ok(c) && c.spec_duration()
                == query_duration && c.spec_query_amount() == query_amount),
    {
        if query_duration < 0 {
            Err(ConfigError::NegativeDuration)
        } else if query_amount == 0 {
            Err(ConfigError::ZeroQueryAmount)
        } else {
            Ok(Config { query_duration, query_amount })
        }
    }

    /// The staleness window, in seconds; never negative.
    pub fn duration(&self) -> (r: i64)
        ensures
            r == self.spec_duration(),
            r >= 0,
    {
        proof {
            use_type_invariant(self);
        }
        self.query_duration
    }

    /// The batch size; at least 1.
    pub fn query_amount(&self) -> (r: usize)
        ensures
            r == self.spec_query_amount(),
            r >= 1,
    {
        proof {
            use_type_invariant(self);
        }
        self.query_amount
    }
}

} // verus!
