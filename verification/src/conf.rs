//! Where the store and the search index are.

use vstd::prelude::*;

verus! {

/// The name of the environment variable that holds the store's directory.
pub const NEPHRITE_ROOT: &'static str = "NEPHRITE_ROOT";

/// The name of the environment variable that holds the database address.
pub const NEPHRITE_DB_URL: &'static str = "NEPHRITE_DB_URL";

/// The settings of a run.
#[derive(Debug, Clone)]
pub struct Conf {
    /// The directory of the content store and of the object database.
    pub root: String,
    /// The address of the search index's database.
    pub db_url: String,
}

impl Conf {
    /// The directory of the content store and of the object database.
    pub fn root(&self) -> (r: String)
        ensures
            r@ == self.root@,
    {
        self.root.clone()
    }

    /// The address of the search index's database.
    pub fn db_url(&self) -> (r: String)
        ensures
            r@ == self.db_url@,
    {
        self.db_url.clone()
    }
}

} // verus!
