//! The command line: where the address of the upstream resolver is found.

use vstd::prelude::*;

verus! {

/// The arguments as sequences of characters.
pub open spec fn args_view(args: Seq<String>) -> Seq<Seq<char>> {
    Seq::new(args.len(), |i: int| args[i]@)
}

/// `arg` starts with the name of the flag that announces the resolver.
pub open spec fn is_resolver_flag(arg: Seq<char>) -> bool {
    "--resolver"@.is_prefix_of(arg)
}

/// The index of the first argument at or after `from` that is the resolver
/// flag, or the number of arguments where there is none.
pub open spec fn first_flag(args: Seq<Seq<char>>, from: int) -> int
    decreases args.len() - from,
{
    if from < 0 || from >= args.len() {
        args.len() as int
    } else if is_resolver_flag(args[from]) {
        from
    } else {
        first_flag(args, from + 1)
    }
}

/// The address of the resolver that the arguments name: the argument that
/// follows the first resolver flag. `None` where no argument is the flag, or
/// where the first flag is the last argument.
pub open spec fn resolver_of(args: Seq<Seq<char>>) -> Option<Seq<char>> {
    let value = first_flag(args, 0) + 1;
    if value < args.len() {
        Some(args[value])
    } else {
        None
    }
}

/// `str::starts_with` for a string pattern: whether the characters of
/// `prefix` are the first characters of `text`.
#[verifier::external_body]
fn starts_with(text: &str, prefix: &str) -> (found: bool)
    ensures
        found == prefix@.is_prefix_of(text@),
{
    text.starts_with(prefix)
}

/// Finds the address of the upstream resolver among the arguments of the
/// program.
pub fn parse_args(args: &[String]) -> (maybe_resolver: Option<&str>)
    ensures
        match resolver_of(args_view(args@)) {
            Some(address) => maybe_resolver matches Some(found) && found@ == address,
            None => maybe_resolver is None,
        },
{
    let mut index: usize = 0;
    while index < args.len()
        invariant
            index <= args@.len(),
            first_flag(args_view(args@), 0) == first_flag(args_view(args@), index as int),
        decreases args@.len() - index,
    {
        if starts_with(args[index].as_str(), "--resolver") {
            if index + 1 < args.len() {
                return Some(args[index + 1].as_str());
            }
            return None;
        }
        index = index + 1;
    }
    None
}

} // verus!
