use vstd::prelude::*;

verus! {

/// A content-type identifier paired with the suffix that produced it,
/// as handed to an assignment operation.
pub struct Config {
    pub uti: String,
    pub suffix: String,
}

impl Config {
    pub fn new(uti: String, suffix: String) -> (c: Config)
        ensures
            c.uti@ == uti@,
            c.suffix@ == suffix@,
    {
        Config { uti, suffix }
    }
}

} // verus!
