//! The command-line options of the `monet` tool.
use vstd::prelude::*;
use crate::wallpaper::ScoringStrategy;

verus! {

/// The arguments as character sequences.
pub open spec fn arg_views(args: Seq<String>) -> Seq<Seq<char>> {
    args.map_values(|a: String| a@)
}

/// `args[i]` is one of the option names `name` or `alias`, and a value follows it.
pub open spec fn option_with_value_at(args: Seq<Seq<char>>, i: int, name: Seq<char>, alias: Seq<char>) -> bool {
    &&& 0 <= i
    &&& i + 1 < args.len()
    &&& (args[i] == name || args[i] == alias)
}

/// `i` is the first position of the option `name` (or `alias`) with a value.
pub open spec fn first_option_at(args: Seq<Seq<char>>, i: int, name: Seq<char>, alias: Seq<char>) -> bool {
    &&& option_with_value_at(args, i, name, alias)
    &&& forall|j: int| 0 <= j < i ==> !option_with_value_at(args, j, name, alias)
}

/// Finds the first position of the option `name` (or `alias`) with a value.
fn find_option(args: &[String], name: &String, alias: &String) -> (r: Option<usize>)
    ensures
        match r {
            Some(i) => first_option_at(arg_views(args@), i as int, name@, alias@),
            None => forall|i: int| !option_with_value_at(arg_views(args@), i, name@, alias@),
        },
{
    let ghost views = arg_views(args@);
    let mut i: usize = 0;
    while i < args.len()
        invariant
            views == arg_views(args@),
            views.len() == args@.len(),
            i <= args.len(),
            forall|j: int| 0 <= j < i ==> !option_with_value_at(views, j, name@, alias@),
        decreases args.len() - i,
    {
        if (args[i] == *name || args[i] == *alias) && i + 1 < args.len() {
            assert(views[i as int] == args@[i as int]@);
            return Some(i);
        }
        assert(views[i as int] == args@[i as int]@);
        i = i + 1;
    }
    None
}

/// The scoring strategy the options ask for: `JavaOriginal` when the first
/// `--strategy` that has a value is followed by `java`, else `MaterialColors`.
pub fn parse_strategy(args: &[String]) -> (r: ScoringStrategy)
    ensures
        r == ScoringStrategy::JavaOriginal <==> exists|i: int|
            first_option_at(arg_views(args@), i, "--strategy"@, "--strategy"@) && arg_views(
                args@,
            )[i + 1] == "java"@,
{
    let name = "--strategy".to_owned();
    match find_option(args, &name, &name) {
        Some(i) => {
            assert(arg_views(args@).len() == args@.len() && args@.len() == args.len());
            let java = "java".to_owned();
            assert(arg_views(args@)[i + 1] == args@[i + 1]@);
            if args[i + 1] == java {
                ScoringStrategy::JavaOriginal
            } else {
                proof {
                    assert forall|j: int|
                        first_option_at(arg_views(args@), j, "--strategy"@, "--strategy"@)
                        implies j == i by {
                        if j < i {
                        } else if j > i {
                        }
                    }
                }
                ScoringStrategy::MaterialColors
            }
        },
        None => ScoringStrategy::MaterialColors,
    }
}

/// The output file the options ask for: the value after the first
/// `--output` or `-o` that has one.
pub fn parse_output(args: &[String]) -> (r: Option<&str>)
    ensures
        match r {
            Some(path) => exists|i: int|
                first_option_at(arg_views(args@), i, "--output"@, "-o"@) && path@ == arg_views(
                    args@,
                )[i + 1],
            None => forall|i: int| !option_with_value_at(arg_views(args@), i, "--output"@, "-o"@),
        },
{
    let name = "--output".to_owned();
    let alias = "-o".to_owned();
    match find_option(args, &name, &alias) {
        Some(i) => {
            assert(arg_views(args@).len() == args@.len() && args@.len() == args.len());
            assert(arg_views(args@)[i + 1] == args@[i + 1]@);
            Some(args[i + 1].as_str())
        },
        None => None,
    }
}

/// Whether the options ask for the seed color only (`--seed-only`).
pub fn parse_seed_only(args: &[String]) -> (r: bool)
    ensures
        r == arg_views(args@).contains("--seed-only"@),
{
    let flag = "--seed-only".to_owned();
    let ghost views = arg_views(args@);
    let mut i: usize = 0;
    while i < args.len()
        invariant
            views == arg_views(args@),
            views.len() == args@.len(),
            i <= args.len(),
            forall|j: int| 0 <= j < i ==> views[j] != flag@,
            flag@ == "--seed-only"@,
        decreases args.len() - i,
    {
        assert(views[i as int] == args@[i as int]@);
        if args[i] == flag {
            assert(views[i as int] == "--seed-only"@);
            return true;
        }
        i = i + 1;
    }
    assert(!views.contains("--seed-only"@)) by {
        if views.contains("--seed-only"@) {
            let j = choose|j: int| 0 <= j < views.len() && views[j] == "--seed-only"@;
            assert(views[j] != flag@);
        }
    }
    false
}

} // verus!
