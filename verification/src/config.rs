use vstd::prelude::*;

verus! {

/// What a run is asked to do.
pub struct Config {
    /// the pattern
    pub expr: String,
    /// the files to scan; the standard input where there are none
    pub paths: Vec<String>,
    /// whether to show the compiled pattern
    pub dbg_expr_tree: bool,
    /// after how many bytes a line gets a blank; 0 for none
    pub space: u32,
    /// whether to use colours
    pub pretty: bool,
    /// whether to tell the number of matches in place of the matches
    pub count: bool,
    /// after how many matches to stop
    pub stop_after: Option<usize>,
}

impl Config {
    /// A run without a pattern and without files, which shows all matches
    /// in plain text.
    pub fn new() -> (cfg: Self)
        ensures
            cfg.expr@.len() == 0,
            cfg.paths@.len() == 0,
            !cfg.dbg_expr_tree,
            cfg.space == 0,
            !cfg.pretty,
            !cfg.count,
            cfg.stop_after is None,
    {
        Config {
            expr: String::new(),
            paths: Vec::new(),
            dbg_expr_tree: false,
            space: 0,
            pretty: false,
            count: false,
            stop_after: None,
        }
    }
}

impl Default for Config {
    fn default() -> (cfg: Self)
        ensures
            cfg.expr@.len() == 0,
            cfg.paths@.len() == 0,
            !cfg.dbg_expr_tree,
            cfg.space == 0,
            !cfg.pretty,
            !cfg.count,
            cfg.stop_after is None,
    {
        Config::new()
    }
}

} // verus!
