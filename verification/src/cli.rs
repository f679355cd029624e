//! The modes of the program and how the command line selects one.

use crate::text::texts;
use vstd::prelude::*;
use vstd::string::StringExecFns;

verus! {

/// What the program is asked to do.
#[derive(Debug)]
pub enum Mode {
    Ui,
    Preview(String),
    Random,
    Clean,
    Generate,
    Dedupe,
}

/// Why the command line selects no mode.
#[derive(Debug)]
pub enum ArgError {
    /// `--preview` stands last, without a path behind it.
    MissingPreviewValue,
    /// Help was asked for.
    Help,
    /// The argument is not known.
    Unknown(String),
    /// More than one mode was named.
    SeveralModes,
}

pub enum ModeView {
    Ui,
    Preview(Seq<char>),
    Random,
    Clean,
    Generate,
    Dedupe,
}

pub enum ArgErrorView {
    MissingPreviewValue,
    Help,
    Unknown(Seq<char>),
    SeveralModes,
}

impl View for Mode {
    type V = ModeView;

    open spec fn view(&self) -> ModeView {
        match self {
            Mode::Ui => ModeView::Ui,
            Mode::Preview(p) => ModeView::Preview(p@),
            Mode::Random => ModeView::Random,
            Mode::Clean => ModeView::Clean,
            Mode::Generate => ModeView::Generate,
            Mode::Dedupe => ModeView::Dedupe,
        }
    }
}

impl View for ArgError {
    type V = ArgErrorView;

    open spec fn view(&self) -> ArgErrorView {
        match self {
            ArgError::MissingPreviewValue => ArgErrorView::MissingPreviewValue,
            ArgError::Help => ArgErrorView::Help,
            ArgError::Unknown(a) => ArgErrorView::Unknown(a@),
            ArgError::SeveralModes => ArgErrorView::SeveralModes,
        }
    }
}

/// The mode that a flag without a value names.
pub open spec fn flag_mode(arg: Seq<char>) -> Option<ModeView> {
    if arg == "--random"@ {
        Some(ModeView::Random)
    } else if arg == "--clean"@ {
        Some(ModeView::Clean)
    } else if arg == "--generate"@ {
        Some(ModeView::Generate)
    } else if arg == "--dedupe"@ {
        Some(ModeView::Dedupe)
    } else {
        None
    }
}

/// What the arguments from `i` on select, when `selected` was named before
/// them. Arguments are read from the left; the first fault ends the reading.
pub open spec fn selects_from(args: Seq<Seq<char>>, i: int, selected: Option<ModeView>) -> Result<
    ModeView,
    ArgErrorView,
>
    decreases args.len() - i,
{
    if i < 0 || i >= args.len() {
        match selected {
            Some(mode) => Ok(mode),
            None => Ok(ModeView::Ui),
        }
    } else if args[i] == "--preview"@ {
        if i + 1 >= args.len() {
            Err(ArgErrorView::MissingPreviewValue)
        } else if selected is Some {
            Err(ArgErrorView::SeveralModes)
        } else {
            selects_from(args, i + 2, Some(ModeView::Preview(args[i + 1])))
        }
    } else if args[i] == "--help"@ || args[i] == "-h"@ {
        Err(ArgErrorView::Help)
    } else {
        match flag_mode(args[i]) {
            Some(mode) => if selected is Some {
                Err(ArgErrorView::SeveralModes)
            } else {
                selects_from(args, i + 1, Some(mode))
            },
            None => Err(ArgErrorView::Unknown(args[i])),
        }
    }
}

/// The view of a parse result.
pub open spec fn result_view(r: Result<Mode, ArgError>) -> Result<ModeView, ArgErrorView> {
    match r {
        Ok(mode) => Ok(mode@),
        Err(e) => Err(e@),
    }
}

/// Whether `s` is the text `lit`.
fn text_is(s: &String, lit: &str) -> (r: bool)
    ensures
        r == (s@ == lit@),
{
    let other = String::from_str(lit);
    *s == other
}

/// The mode that a flag without a value names.
fn mode_of_flag(arg: &String) -> (r: Option<Mode>)
    ensures
        match r {
            Some(mode) => flag_mode(arg@) == Some(mode@),
            None => flag_mode(arg@) is None,
        },
{
    if text_is(arg, "--random") {
        Some(Mode::Random)
    } else if text_is(arg, "--clean") {
        Some(Mode::Clean)
    } else if text_is(arg, "--generate") {
        Some(Mode::Generate)
    } else if text_is(arg, "--dedupe") {
        Some(Mode::Dedupe)
    } else {
        None
    }
}

/// Reads the arguments that follow the program's name. Without arguments the
/// mode is the user interface.
pub fn parse_args(args: &Vec<String>) -> (r: Result<Mode, ArgError>)
    ensures
        result_view(r) == selects_from(texts(args@), 0, None),
{
    let mut selected: Option<Mode> = None;
    let mut i: usize = 0;
    while i < args.len()
        invariant
            i <= args.len(),
            selects_from(texts(args@), 0, None) == selects_from(
                texts(args@),
                i as int,
                match selected {
                    Some(mode) => Some(mode@),
                    None => None,
                },
            ),
        decreases args.len() - i,
    {
        let arg = &args[i];
        assert(texts(args@)[i as int] == arg@);
        if text_is(arg, "--preview") {
            if i + 1 >= args.len() {
                return Err(ArgError::MissingPreviewValue);
            }
            if selected.is_some() {
                return Err(ArgError::SeveralModes);
            }
            assert(texts(args@)[i + 1] == args@[i + 1]@);
            selected = Some(Mode::Preview(args[i + 1].clone()));
            i += 2;
        } else if text_is(arg, "--help") || text_is(arg, "-h") {
            return Err(ArgError::Help);
        } else {
            match mode_of_flag(arg) {
                Some(mode) => {
                    if selected.is_some() {
                        return Err(ArgError::SeveralModes);
                    }
                    selected = Some(mode);
                    i += 1;
                },
                None => {
                    return Err(ArgError::Unknown(arg.clone()));
                },
            }
        }
    }
    match selected {
        Some(mode) => Ok(mode),
        None => Ok(Mode::Ui),
    }
}

impl ArgError {
    /// What the user is told.
    pub fn message(&self) -> (m: String)
        ensures
            m@ == match self@ {
                ArgErrorView::MissingPreviewValue => "Missing value after --preview"@,
                ArgErrorView::Help => "Usage:\n  wallpicker [--preview <path> | --random | --clean | --generate | --dedupe]\n"@,
                ArgErrorView::Unknown(arg) => "Unknown argument: "@ + arg,
                ArgErrorView::SeveralModes => "Only one mode can be specified (e.g. use exactly one of --preview/--random/--clean/--generate)"@,
            },
    {
        match self {
            ArgError::MissingPreviewValue => String::from_str("Missing value after --preview"),
            ArgError::Help => String::from_str(
                "Usage:\n  wallpicker [--preview <path> | --random | --clean | --generate | --dedupe]\n",
            ),
            ArgError::Unknown(arg) => {
                let mut m = String::from_str("Unknown argument: ");
                m.append(arg.as_str());
                m
            },
            ArgError::SeveralModes => String::from_str(
                "Only one mode can be specified (e.g. use exactly one of --preview/--random/--clean/--generate)",
            ),
        }
    }
}

} // verus!
