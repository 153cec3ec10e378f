//! The command line: three switches and an optional input file.
use vstd::prelude::*;

use crate::text::chars_of;

verus! {

broadcast use vstd::string::group_string_axioms;

/// What the command line asks for.
pub struct CliOptions {
    pub help: bool,
    pub version: bool,
    pub debug: bool,
    /// The index in the arguments of the input file, if one is named.
    pub file: Option<usize>,
}

/// Some argument is exactly `long` or `short`.
pub open spec fn has_switch(args: Seq<Seq<char>>, long: Seq<char>, short: Seq<char>) -> bool {
    exists|k: int| 0 <= k < args.len() && (#[trigger] args[k] == long || args[k] == short)
}

/// An argument that is not an option: it does not start with `-`.
pub open spec fn is_operand(a: Seq<char>) -> bool {
    !(a.len() > 0 && a[0] == '-')
}

/// The first operand after the program name.
pub open spec fn first_operand(args: Seq<Seq<char>>) -> Option<int> {
    if exists|k: int| 1 <= k < args.len() && is_operand(#[trigger] args[k]) {
        Some(choose|k: int| 1 <= k < args.len() && is_operand(#[trigger] args[k]) && forall|j: int| 1 <= j < k ==> !is_operand(#[trigger] args[j]))
    } else {
        None
    }
}

fn same_text(a: &String, b: &str) -> (r: bool)
    ensures
        r == (a@ == b@),
{
    let x = chars_of(a.as_str());
    let y = chars_of(b);
    if x.len() != y.len() {
        return false;
    }
    let mut k: usize = 0;
    while k < x.len()
        invariant
            k <= x.len() == y.len(),
            x@ == a@,
            y@ == b@,
            forall|j: int| 0 <= j < k ==> x@[j] == y@[j],
        decreases x.len() - k,
    {
        if x[k] != y[k] {
            return false;
        }
        k = k + 1;
    }
    assert(x@ =~= y@);
    true
}

fn switch_given(args: &Vec<String>, long: &str, short: &str) -> (r: bool)
    ensures
        r == has_switch(args@.map_values(|a: String| a@), long@, short@),
{
    let ghost av = args@.map_values(|a: String| a@);
    let mut k: usize = 0;
    while k < args.len()
        invariant
            k <= args@.len(),
            av == args@.map_values(|a: String| a@),
            forall|j: int| 0 <= j < k ==> !(#[trigger] av[j] == long@ || av[j] == short@),
        decreases args.len() - k,
    {
        if same_text(&args[k], long) || same_text(&args[k], short) {
            assert(av[k as int] == args@[k as int]@);
            return true;
        }
        k = k + 1;
    }
    false
}

fn starts_with_dash(a: &String) -> (r: bool)
    ensures
        r == !is_operand(a@),
{
    let x = chars_of(a.as_str());
    x.len() > 0 && x[0] == '-'
}

/// Reads the switches `--help`/`-h`, `--version`/`-V` and `--debug`/`-d`, and the first
/// argument after the program name that is not an option, as the input file.
pub fn parse_args(args: &Vec<String>) -> (r: CliOptions)
    ensures
        r.help == has_switch(args@.map_values(|a: String| a@), "--help"@, "-h"@),
        r.version == has_switch(args@.map_values(|a: String| a@), "--version"@, "-V"@),
        r.debug == has_switch(args@.map_values(|a: String| a@), "--debug"@, "-d"@),
        match r.file {
            Some(k) => first_operand(args@.map_values(|a: String| a@)) == Some(k as int),
            None => first_operand(args@.map_values(|a: String| a@)) is None,
        },
{
    let ghost av = args@.map_values(|a: String| a@);
    let help = switch_given(args, "--help", "-h");
    let version = switch_given(args, "--version", "-V");
    let debug = switch_given(args, "--debug", "-d");
    let mut k: usize = 1;
    while k < args.len()
        invariant
            1 <= k,
            av == args@.map_values(|a: String| a@),
            help == has_switch(av, "--help"@, "-h"@),
            version == has_switch(av, "--version"@, "-V"@),
            debug == has_switch(av, "--debug"@, "-d"@),
            forall|j: int| 1 <= j < k && j < args@.len() ==> !is_operand(#[trigger] av[j]),
        decreases args.len() - k,
    {
        if !starts_with_dash(&args[k]) {
            assert(is_operand(av[k as int]));
            assert(first_operand(av) == Some(k as int)) by {
                let c = choose|c: int|
                    1 <= c < av.len() && is_operand(#[trigger] av[c]) && forall|j: int|
                        1 <= j < c ==> !is_operand(#[trigger] av[j]);
                assert(1 <= c < av.len() && is_operand(av[c]) && forall|j: int| 1 <= j < c ==> !is_operand(#[trigger] av[j]));
                if c < k {
                } else if c > k {
                    assert(!is_operand(av[k as int]));
                }
            }
            return CliOptions { help, version, debug, file: Some(k) };
        }
        k = k + 1;
    }
    CliOptions { help, version, debug, file: None }
}

} // verus!
