//! Command parsing: one tokenisation of the input line into a validated
//! command variant, on which the session dispatches.

use vstd::prelude::*;
use crate::codec::{decode_addr_spec, decode_address};
use crate::strutil::{
    all_dec_digits,
    dec_value_of,
    parse_dec_bounded,
    split_spaces,
    split_tokens,
    trim_ws,
    trim_ws_spec,
    views_of,
};

verus! {

/// A validated command of the inspector's prompt.
#[derive(Clone, Copy, Debug, PartialEq, Eq, Structural)]
pub enum Command {
    Help,
    ListProcesses,
    ListThreads(i32),
    ListModules(i32),
    ListExecRegions(i32),
    ViewAtAddress(i32, u64),
    ViewAtOrdinal(i32, usize),
    Quit,
    Unknown,
}

/// A malformed command line: a wrong argument count, or an argument
/// that does not parse.  Recoverable; the session re-prompts.
#[derive(Clone, Copy, Debug, PartialEq, Eq, Structural)]
pub enum UserInputError {
    PstUsage,
    LmUsage,
    XpUsage,
    MemUsage,
    MemxUsage,
    BadPid,
    BadPidOrOrdinal,
    BadPidOrAddress,
}

/// The token is a decimal pid.
pub open spec fn pid_ok(t: Seq<char>) -> bool {
    all_dec_digits(t) && dec_value_of(t) <= i32::MAX
}

/// The pid the token spells.
pub open spec fn pid_val(t: Seq<char>) -> i32 {
    dec_value_of(t) as i32
}

/// The token is a decimal ordinal.
pub open spec fn ord_ok(t: Seq<char>) -> bool {
    all_dec_digits(t) && dec_value_of(t) <= usize::MAX
}

/// What parsing a command line yields: the input is trimmed and split
/// at spaces once; the first token selects the command and the rest
/// must parse to its arguments.
pub open spec fn parse_spec(raw: Seq<char>) -> Result<Command, UserInputError> {
    let s = trim_ws_spec(raw);
    let toks = split_tokens(s);
    if s == "help"@ {
        Ok(Command::Help)
    } else if s == "ps"@ {
        Ok(Command::ListProcesses)
    } else if s == "quit"@ || s == "exit"@ {
        Ok(Command::Quit)
    } else if toks.len() >= 2 && toks[0] == "pst"@ {
        if toks.len() != 2 {
            Err(UserInputError::PstUsage)
        } else if pid_ok(toks[1]) {
            Ok(Command::ListThreads(pid_val(toks[1])))
        } else {
            Err(UserInputError::BadPid)
        }
    } else if toks.len() >= 2 && toks[0] == "lm"@ {
        if toks.len() != 2 {
            Err(UserInputError::LmUsage)
        } else if pid_ok(toks[1]) {
            Ok(Command::ListModules(pid_val(toks[1])))
        } else {
            Err(UserInputError::BadPid)
        }
    } else if toks.len() >= 2 && toks[0] == "xp"@ {
        if toks.len() != 2 {
            Err(UserInputError::XpUsage)
        } else if pid_ok(toks[1]) {
            Ok(Command::ListExecRegions(pid_val(toks[1])))
        } else {
            Err(UserInputError::BadPid)
        }
    } else if toks.len() >= 2 && toks[0] == "memx"@ {
        if toks.len() != 3 {
            Err(UserInputError::MemxUsage)
        } else if pid_ok(toks[1]) && ord_ok(toks[2]) {
            Ok(Command::ViewAtOrdinal(pid_val(toks[1]), dec_value_of(toks[2]) as usize))
        } else {
            Err(UserInputError::BadPidOrOrdinal)
        }
    } else if toks.len() >= 2 && toks[0] == "mem"@ {
        if toks.len() != 3 {
            Err(UserInputError::MemUsage)
        } else if pid_ok(toks[1]) && decode_addr_spec(toks[2]) is Some {
            Ok(Command::ViewAtAddress(pid_val(toks[1]), decode_addr_spec(toks[2]).unwrap()))
        } else {
            Err(UserInputError::BadPidOrAddress)
        }
    } else {
        Ok(Command::Unknown)
    }
}

/// Parses one command line: trims it, splits it at spaces once, and
/// validates the command and its arguments, exactly as `parse_spec`
/// lays down.
pub fn parse_command(input: &str) -> (r: Result<Command, UserInputError>)
    ensures
        r == parse_spec(input@),
{
    let t = trim_ws(input);
    let tokens = split_spaces(t.as_str());
    proof {
        assert(forall|k: int|
            0 <= k < tokens@.len() ==> views_of(tokens@)[k] == (#[trigger] tokens@[k])@);
    }
    if t == String::from_str("help") {
        return Ok(Command::Help);
    }
    if t == String::from_str("ps") {
        return Ok(Command::ListProcesses);
    }
    if t == String::from_str("quit") || t == String::from_str("exit") {
        return Ok(Command::Quit);
    }
    if tokens.len() >= 2 && tokens[0] == String::from_str("pst") {
        if tokens.len() != 2 {
            return Err(UserInputError::PstUsage);
        }
        return match parse_dec_bounded(tokens[1].as_str(), 2147483647) {
            Some(v) => Ok(Command::ListThreads(v as i32)),
            None => Err(UserInputError::BadPid),
        };
    }
    if tokens.len() >= 2 && tokens[0] == String::from_str("lm") {
        if tokens.len() != 2 {
            return Err(UserInputError::LmUsage);
        }
        return match parse_dec_bounded(tokens[1].as_str(), 2147483647) {
            Some(v) => Ok(Command::ListModules(v as i32)),
            None => Err(UserInputError::BadPid),
        };
    }
    if tokens.len() >= 2 && tokens[0] == String::from_str("xp") {
        if tokens.len() != 2 {
            return Err(UserInputError::XpUsage);
        }
        return match parse_dec_bounded(tokens[1].as_str(), 2147483647) {
            Some(v) => Ok(Command::ListExecRegions(v as i32)),
            None => Err(UserInputError::BadPid),
        };
    }
    if tokens.len() >= 2 && tokens[0] == String::from_str("memx") {
        if tokens.len() != 3 {
            return Err(UserInputError::MemxUsage);
        }
        let pid_opt = parse_dec_bounded(tokens[1].as_str(), 2147483647);
        let ord_opt = parse_dec_bounded(tokens[2].as_str(), usize::MAX as u64);
        return match (pid_opt, ord_opt) {
            (Some(p), Some(o)) => Ok(Command::ViewAtOrdinal(p as i32, o as usize)),
            _ => Err(UserInputError::BadPidOrOrdinal),
        };
    }
    if tokens.len() >= 2 && tokens[0] == String::from_str("mem") {
        if tokens.len() != 3 {
            return Err(UserInputError::MemUsage);
        }
        let pid_opt = parse_dec_bounded(tokens[1].as_str(), 2147483647);
        let addr_res = decode_address(tokens[2].as_str());
        return match (pid_opt, addr_res) {
            (Some(p), Ok(a)) => Ok(Command::ViewAtAddress(p as i32, a)),
            _ => Err(UserInputError::BadPidOrAddress),
        };
    }
    Ok(Command::Unknown)
}

} // verus!
