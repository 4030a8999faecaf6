//! The command line: one query, or a request for help or the version.
use vstd::prelude::*;

use crate::text::{chars_of, lit, seq_eq};

verus! {

/// A run of the finder for one query.
#[derive(Debug, Clone, PartialEq, Eq)]
pub struct Cli {
    pub query: String,
}

/// What the command line asks for.
#[derive(Debug, PartialEq, Eq)]
pub enum CommandLine {
    Help,
    Version,
    Run(Cli),
}

/// The arguments name exactly one query (after the program name), which is
/// not empty and does not look like an option.
pub open spec fn one_query(args: Seq<String>) -> bool {
    &&& args.len() == 2
    &&& args[1]@.len() > 0
    &&& args[1]@[0] != '-'
}

/// Reads the query from the arguments, the first of which names the program.
pub fn parse_from(args: Vec<String>) -> (r: Result<Cli, String>)
    ensures
        r is Ok <==> one_query(args@),
        r matches Ok(cli) ==> cli.query@ == args@[1]@,
        r matches Err(e) ==> e@ == "expected exactly one query"@,
{
    if args.len() != 2 || args[1].as_str().is_empty() || chars_of(args[1].as_str())[0] == '-' {
        return Err("expected exactly one query".to_owned());
    }
    Ok(Cli { query: args[1].clone() })
}

/// Reads the command line: `--help` or `-h` alone asks for help, `--version`
/// alone for the version, anything else must name one query.
pub fn parse_command(args: Vec<String>) -> (r: Result<CommandLine, String>)
    ensures
        args@.len() == 2 && (args@[1]@ == "--help"@ || args@[1]@ == "-h"@) ==> r == Ok::<
            CommandLine,
            String,
        >(CommandLine::Help),
        args@.len() == 2 && args@[1]@ == "--version"@ ==> r == Ok::<CommandLine, String>(
            CommandLine::Version,
        ),
        !(args@.len() == 2 && (args@[1]@ == "--help"@ || args@[1]@ == "-h"@ || args@[1]@
            == "--version"@)) ==> {
            &&& r is Ok <==> one_query(args@)
            &&& r matches Ok(c) ==> c matches CommandLine::Run(cli) && cli.query@ == args@[1]@
            &&& r matches Err(e) ==> e@ == "expected exactly one query"@
        },
{
    proof {
        reveal_strlit("--help");
        reveal_strlit("-h");
        reveal_strlit("--version");
        assert("--version"@.len() == 9);
        assert("--help"@.len() == 6);
        assert("-h"@.len() == 2);
    }
    if args.len() == 2 {
        let arg = chars_of(args[1].as_str());
        if seq_eq(&arg, &lit("--help")) || seq_eq(&arg, &lit("-h")) {
            return Ok(CommandLine::Help);
        }
        if seq_eq(&arg, &lit("--version")) {
            return Ok(CommandLine::Version);
        }
    }
    match parse_from(args) {
        Ok(cli) => Ok(CommandLine::Run(cli)),
        Err(e) => Err(e),
    }
}

} // verus!
