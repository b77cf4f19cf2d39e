//! The command line of the accessor generator: what its arguments ask for.

use crate::text_out::str_eq;
use vstd::prelude::*;

verus! {

/// What a command line asks for.
#[derive(PartialEq, Eq, Debug)]
pub enum Plan {
    /// Print the usage line.
    Help,
    /// Read a schema and write its accessors for a language, to a file or to stdout.
    Generate { input: String, lang: String, output: Option<String> },
}

/// Why a command line is refused.
#[derive(PartialEq, Eq, Debug)]
pub enum PlanError {
    /// `--lang` came last.
    LangWithoutValue,
    /// `-o` came last.
    OutputWithoutValue,
    /// A second input.
    Unexpected(String),
    /// No input.
    NoInput,
}

pub enum PlanV {
    Help,
    Generate { input: Seq<char>, lang: Seq<char>, output: Option<Seq<char>> },
}

pub enum PlanErrorV {
    LangWithoutValue,
    OutputWithoutValue,
    Unexpected(Seq<char>),
    NoInput,
}

pub open spec fn opt_text(s: Option<String>) -> Option<Seq<char>> {
    match s {
        Some(s) => Some(s@),
        None => None,
    }
}

impl View for Plan {
    type V = PlanV;

    open spec fn view(&self) -> PlanV {
        match *self {
            Plan::Help => PlanV::Help,
            Plan::Generate { input, lang, output } => PlanV::Generate {
                input: input@,
                lang: lang@,
                output: opt_text(output),
            },
        }
    }
}

impl View for PlanError {
    type V = PlanErrorV;

    open spec fn view(&self) -> PlanErrorV {
        match *self {
            PlanError::LangWithoutValue => PlanErrorV::LangWithoutValue,
            PlanError::OutputWithoutValue => PlanErrorV::OutputWithoutValue,
            PlanError::Unexpected(s) => PlanErrorV::Unexpected(s@),
            PlanError::NoInput => PlanErrorV::NoInput,
        }
    }
}

/// The options read so far.
pub struct OptionsV {
    pub input: Option<Seq<char>>,
    pub lang: Seq<char>,
    pub output: Option<Seq<char>>,
}

/// What the arguments from `i` on make of the options read before them.
pub open spec fn read_args(args: Seq<Seq<char>>, i: int, o: OptionsV) -> Result<PlanV, PlanErrorV>
    decreases args.len() - i,
{
    if i < 0 || i >= args.len() {
        match o.input {
            None => Err(PlanErrorV::NoInput),
            Some(input) => Ok(PlanV::Generate { input, lang: o.lang, output: o.output }),
        }
    } else if args[i] == "--lang"@ {
        if i + 1 < args.len() {
            read_args(args, i + 2, OptionsV { lang: args[i + 1], ..o })
        } else {
            Err(PlanErrorV::LangWithoutValue)
        }
    } else if args[i] == "-o"@ || args[i] == "--out"@ {
        if i + 1 < args.len() {
            read_args(args, i + 2, OptionsV { output: Some(args[i + 1]), ..o })
        } else {
            Err(PlanErrorV::OutputWithoutValue)
        }
    } else if args[i] == "-h"@ || args[i] == "--help"@ {
        Ok(PlanV::Help)
    } else if o.input is None {
        read_args(args, i + 1, OptionsV { input: Some(args[i]), ..o })
    } else {
        Err(PlanErrorV::Unexpected(args[i]))
    }
}

pub open spec fn texts(args: Seq<String>) -> Seq<Seq<char>> {
    args.map_values(|s: String| s@)
}

/// What a command line asks for. The language is python unless another is named.
pub fn plan(args: &Vec<String>) -> (r: Result<Plan, PlanError>)
    ensures
        match read_args(
            texts(args@),
            0,
            OptionsV { input: None, lang: "python"@, output: None },
        ) {
            Ok(p) => r is Ok && r->Ok_0@ == p,
            Err(e) => r is Err && r->Err_0@ == e,
        },
{
    let ghost all = texts(args@);
    let ghost whole = read_args(all, 0, OptionsV { input: None, lang: "python"@, output: None });
    let mut input: Option<String> = None;
    let mut lang = String::new();
    lang.push_str("python");
    let mut output: Option<String> = None;
    let mut i: usize = 0;
    proof {
        assert(lang@ =~= "python"@);
    }
    while i < args.len()
        invariant
            all == texts(args@),
            i <= args@.len(),
            whole == read_args(
                all,
                i as int,
                OptionsV { input: opt_text(input), lang: lang@, output: opt_text(output) },
            ),
            whole == read_args(
                texts(args@),
                0,
                OptionsV { input: None, lang: "python"@, output: None },
            ),
        decreases args@.len() - i,
    {
        proof {
            assert(all[i as int] == args@[i as int]@);
        }
        let arg = args[i].as_str();
        if str_eq(arg, "--lang") {
            if i + 1 >= args.len() {
                return Err(PlanError::LangWithoutValue);
            }
            proof {
                assert(all[i + 1] == args@[i + 1]@);
            }
            lang = args[i + 1].clone();
            i += 2;
        } else if str_eq(arg, "-o") || str_eq(arg, "--out") {
            if i + 1 >= args.len() {
                return Err(PlanError::OutputWithoutValue);
            }
            proof {
                assert(all[i + 1] == args@[i + 1]@);
            }
            output = Some(args[i + 1].clone());
            i += 2;
        } else if str_eq(arg, "-h") || str_eq(arg, "--help") {
            return Ok(Plan::Help);
        } else if input.is_none() {
            input = Some(args[i].clone());
            i += 1;
        } else {
            return Err(PlanError::Unexpected(args[i].clone()));
        }
    }
    match input {
        None => Err(PlanError::NoInput),
        Some(input) => Ok(Plan::Generate { input, lang, output }),
    }
}

/// Whether there are accessors for a language.
pub fn knows_lang(lang: &str) -> (b: bool)
    ensures
        b == (lang@ == "python"@ || lang@ == "py"@),
{
    str_eq(lang, "python") || str_eq(lang, "py")
}

} // verus!
