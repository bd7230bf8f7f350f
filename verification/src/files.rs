//! Command-line argument handling: picking the two input paths out of the
//! argument vector. Reading the files themselves is I/O and belongs to the
//! caller.

use vstd::prelude::*;

verus! {

/// Why argument parsing failed: the vector held fewer entries than the
/// program name plus the two required paths.
#[derive(Debug)]
pub enum ArgsError {
    NotEnoughArguments,
}

/// Picks the two paths out of the argument vector as the process received
/// it: the entry at position 0 is the program name and is ignored, the next
/// two are the original and the modified path. Fails exactly when fewer than
/// three entries are present.
pub fn parse_arguments(args: &Vec<String>) -> (r: Result<(String, String), ArgsError>)
    ensures
        args@.len() >= 3 ==> (r matches Ok(paths) && paths.0@ == args@[1]@ && paths.1@
            == args@[2]@),
        args@.len() < 3 ==> (r matches Err(e) && e is NotEnoughArguments),
{
    if args.len() < 3 {
        return Err(ArgsError::NotEnoughArguments);
    }
    let original_path = args[1].clone();
    let modified_path = args[2].clone();
    Ok((original_path, modified_path))
}

} // verus!

