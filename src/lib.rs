//! Line-oriented diff: an optimal alignment of two sequences of lines, and the
//! change blocks that lie between its matches.
use vstd::prelude::*;

pub mod blocks;
pub mod diff;

verus! {

/// The two files to compare.
pub struct Config {
    pub file1_path: String,
    pub file2_path: String,
}

impl Config {
    /// Reads the two paths from the command line: `args[1]` and `args[2]`,
    /// after the program name. Fewer than three arguments is an error.
    pub fn build(args: &[String]) -> (r: Result<Config, &'static str>)
        ensures
            r is Err <==> args@.len() < 3,
            r matches Ok(c) ==> c.file1_path@ == args@[1]@ && c.file2_path@ == args@[2]@,
            r matches Err(e) ==> e@ == "not enough arguments"@,
    {
        if args.len() < 3 {
            proof {
                reveal_strlit("not enough arguments");
            }
            return Err("not enough arguments");
        }
        let file1_path = args[1].clone();
        let file2_path = args[2].clone();
        Ok(Config { file1_path, file2_path })
    }
}

} // verus!
