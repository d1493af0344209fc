//! The command line: an input path and an output path.
use vstd::prelude::*;

verus! {

/// The failures of a run.
#[derive(Debug, PartialEq, Eq, Structural)]
pub enum RunError {
    /// Fewer than two paths were given.
    Usage,
    /// A file could not be read or written.
    Io,
    /// The input is not well-formed JSON.
    Parse,
    /// The input is JSON, but a required field is missing or mistyped.
    Schema,
}

/// The input and output paths from a command line whose first entry names
/// the program; `Err(Usage)` where fewer than two paths follow it. Entries
/// past the second path are ignored.
pub fn paths_from_args(args: &Vec<String>) -> (r: Result<(String, String), RunError>)
    ensures
        r is Ok <==> args@.len() >= 3,
        args@.len() < 3 <==> r == Err::<(String, String), RunError>(RunError::Usage),
        r matches Ok((input, output)) ==> input@ == args@[1]@ && output@ == args@[2]@,
{
    if args.len() < 3 {
        return Err(RunError::Usage);
    }
    Ok((args[1].clone(), args[2].clone()))
}

} // verus!
