//! Command-line arguments.
use vstd::prelude::*;

use super::words::same_text;

verus! {

/// The first place at which `name` stands among the arguments, or their number.
pub open spec fn place_of(args: Seq<String>, name: Seq<char>) -> int
    decreases args.len(),
{
    if args.len() == 0 || args[0]@ == name {
        0
    } else {
        1 + place_of(args.skip(1), name)
    }
}

/// Find an argument.
fn find_argument(args: &[String], name: &str) -> (place: usize)
    ensures
        place == place_of(args@, name@),
        place <= args@.len(),
{
    let mut i: usize = 0;
    assert(args@.skip(0) =~= args@);
    while i < args.len()
        invariant
            i <= args@.len(),
            i + place_of(args@.skip(i as int), name@) == place_of(args@, name@),
        decreases args@.len() - i,
    {
        if same_text(args[i].as_str(), name) {
            return i;
        }
        assert(args@.skip(i as int).skip(1) =~= args@.skip(i + 1));
        i += 1;
    }
    i
}

/// The argument that follows the first `name`. The program's own name is not
/// among the arguments.
pub fn arg_value(args: &[String], name: &str) -> (value: Option<String>)
    ensures
        match value {
            Some(text) => place_of(args@, name@) + 1 < args@.len() && text@ == args@[place_of(
                args@,
                name@,
            ) + 1]@,
            None => place_of(args@, name@) + 1 >= args@.len(),
        },
{
    let place: usize = find_argument(args, name);
    if place < args.len() && place + 1 < args.len() {
        Some(args[place + 1].clone())
    } else {
        None
    }
}

/// Whether `name` is among the arguments.
pub fn has_arg(args: &[String], name: &str) -> (present: bool)
    ensures
        present == (place_of(args@, name@) < args@.len()),
{
    find_argument(args, name) < args.len()
}

} // verus!
