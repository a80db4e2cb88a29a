use vstd::prelude::*;

verus! {

/// Reachability scoping shared by every front end that takes a config file.
pub struct Config {
    /// Functions whose call graph seeds the reachable set.
    pub tick_reachable_roots: Vec<String>,
    /// Functions exempt from the float-arithmetic rule even when reachable.
    pub fixed_step_functions: Vec<String>,
}

impl Config {
    /// Whether `tick_reachable_roots` is configured at all.
    pub fn is_scoped(&self) -> (r: bool)
        ensures
            r == (self.tick_reachable_roots@.len() > 0),
    {
        self.tick_reachable_roots.len() > 0
    }
}

impl Default for Config {
    fn default() -> (c: Self)
        ensures
            c.tick_reachable_roots@.len() == 0,
            c.fixed_step_functions@.len() == 0,
    {
        Config { tick_reachable_roots: Vec::new(), fixed_step_functions: Vec::new() }
    }
}

} // verus!
