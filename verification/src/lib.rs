use vstd::prelude::*;

pub mod dates;
pub mod errors;
pub mod frontmatter;
pub mod page;
pub mod pipeline;
pub mod render;
pub mod site;
pub mod template;
pub mod text;

verus! {

/// Command-line configuration for the single-file entry point: the first
/// real argument names the content file to process.
pub struct Config {
    pub filename: String,
}

impl Config {
    /// Fails exactly when no file-name argument is present (the slice holds
    /// the program name first).
    pub fn new(args: &[String]) -> (r: Result<Config, &'static str>)
        ensures
            args@.len() >= 2 ==> (r matches Ok(c) && c.filename@ == args@[1]@),
            args@.len() < 2 ==> (r matches Err(m) && m@ == "Not enough arguements"@),
    {
        if args.len() < 2 {
            return Err("Not enough arguements");
        }
        let filename = args[1].clone();
        Ok(Config { filename })
    }
}

} // verus!
