//! Command-line handling: the only form accepted is `--conf <path>`.
use vstd::prelude::*;

verus! {

/// The arguments are neither empty nor a flag followed by a path.
#[derive(PartialEq, Eq, Structural, Clone, Copy, Debug)]
pub enum ArgsError {
    UnknownArguments,
}

/// Takes the program's arguments, the program name first. With no further
/// argument there is no configuration path; with two, the second is the path.
pub fn parse_args(args: Vec<String>) -> (r: Result<Option<String>, ArgsError>)
    ensures
        args@.len() == 1 ==> r == Ok::<Option<String>, ArgsError>(None),
        args@.len() == 3 ==> (r matches Ok(Some(p)) && p@ == args@[2]@),
        args@.len() != 1 && args@.len() != 3 ==> r == Err::<Option<String>, ArgsError>(
            ArgsError::UnknownArguments,
        ),
{
    if args.len() == 1 {
        return Ok(None);
    }
    if args.len() != 3 {
        return Err(ArgsError::UnknownArguments);
    }
    let mut args = args;
    match args.pop() {
        Some(p) => Ok(Some(p)),
        None => Err(ArgsError::UnknownArguments),
    }
}

} // verus!
