use vstd::prelude::*;

use crate::error::Error;
use crate::store::{join_path, join_path_spec};
use crate::text::{decimal, decimal_spec, push_all};

verus! {

/// The name of the configuration file in the project directory.
pub const CONFIG_FILE: &'static str = ".bears.yml";

/// The ID length used when the configuration names none.
pub const DEFAULT_ID_LENGTH: u8 = 4;

/// The shortest ID length allowed.
pub const MIN_ID_LENGTH: u8 = 3;

/// The longest ID length allowed.
pub const MAX_ID_LENGTH: u8 = 8;

/// Project settings.
#[derive(Debug, Clone, Copy, PartialEq, Eq, Structural)]
pub struct Config {
    /// Number of characters in generated task IDs.
    pub id_length: u8,
}

/// The ID length used when the configuration names none.
pub fn default_id_length() -> (n: u8)
    ensures
        n == 4,
{
    DEFAULT_ID_LENGTH
}

impl Default for Config {
    fn default() -> (c: Config)
        ensures
            c.id_length == 4,
    {
        Config { id_length: DEFAULT_ID_LENGTH }
    }
}

/// The reason given for an ID length outside `3..=8`.
pub open spec fn id_length_reason(n: u8) -> Seq<char> {
    "id-length must be between 3 and 8, got "@ + decimal_spec(n as nat)
}

impl Config {
    /// Accepts an ID length from 3 to 8; anything else is an
    /// `InvalidConfig` error that names the value.
    pub fn validate(&self) -> (r: Result<(), Error>)
        ensures
            r is Ok <==> 3 <= self.id_length <= 8,
            r matches Err(Error::InvalidConfig { reason }) ==> reason@ == id_length_reason(self.id_length),
            r is Err ==> r matches Err(Error::InvalidConfig { .. }),
    {
        if self.id_length < MIN_ID_LENGTH || self.id_length > MAX_ID_LENGTH {
            let mut reason = String::new();
            push_all(&mut reason, "id-length must be between 3 and 8, got ");
            let d = decimal(self.id_length as u64);
            push_all(&mut reason, d.as_str());
            return Err(Error::InvalidConfig { reason });
        }
        Ok(())
    }
}

/// Path of the configuration file under the project directory `base`.
pub fn config_path(base: &str) -> (p: String)
    ensures
        p@ == join_path_spec(base@, ".bears.yml"@),
{
    join_path(base, CONFIG_FILE)
}

} // verus!
