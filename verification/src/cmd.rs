//! Commands: what a client's frame asks the store to do.

use vstd::prelude::*;
use vstd::utf8::{encode_utf8, is_ascii_chars};
use crate::frame::{RespFrame, FrameView, frames_view, lemma_frames_view};
use crate::buffers::bytes_as_slice;
use crate::text::{lossy_text, lossy_string, u64_text, parse_u64, message};

verus! {

/// A request to the store.
#[derive(Debug)]
pub enum Command {
    Get { key: String },
    SetKey { key: String, value: RespFrame, time: Option<u64> },
    Del { key: String },
    Exist { key: String },
    Unknown,
}

/// What a command denotes.
pub enum CommandView {
    Get { key: Seq<char> },
    SetKey { key: Seq<char>, value: FrameView, time: Option<u64> },
    Del { key: Seq<char> },
    Exist { key: Seq<char> },
    Unknown,
}

impl View for Command {
    type V = CommandView;

    open spec fn view(&self) -> CommandView {
        match self {
            Command::Get { key } => CommandView::Get { key: key@ },
            Command::SetKey { key, value, time } => CommandView::SetKey { key: key@, value: value@, time: *time },
            Command::Del { key } => CommandView::Del { key: key@ },
            Command::Exist { key } => CommandView::Exist { key: key@ },
            Command::Unknown => CommandView::Unknown,
        }
    }
}

/// What `str::to_uppercase` makes of a text.
pub uninterp spec fn uppercase(s: Seq<char>) -> Seq<char>;

/// ASCII letters `a` to `z` turned to `A` to `Z`; every other character kept.
pub open spec fn ascii_upper(s: Seq<char>) -> Seq<char> {
    s.map_values(|c: char| if 'a' <= c && c <= 'z' { ((c as u32) - 32) as char } else { c })
}

/// The uppercase of a text: on ASCII, `a`..`z` become `A`..`Z` and everything
/// else is kept; beyond ASCII the Unicode mapping is only named.
pub open spec fn upper_text(s: Seq<char>) -> Seq<char> {
    if is_ascii_chars(s) {
        ascii_upper(s)
    } else {
        uppercase(s)
    }
}

/// `str::to_uppercase`: the Unicode uppercase of the text. Of text beyond
/// ASCII only the name `uppercase` is said; on ASCII it maps `a`..`z` to
/// `A`..`Z` and keeps everything else.
#[verifier::external_body]
fn to_upper(s: &str) -> (r: String)
    ensures
        is_ascii_chars(s@) ==> r@ == ascii_upper(s@),
        !is_ascii_chars(s@) ==> r@ == uppercase(s@),
{
    s.to_uppercase()
}

fn is_word(s: &String, w: &str) -> (r: bool)
    ensures
        r == (s@ == w@),
{
    let o = w.to_owned();
    s.eq(&o)
}

/// The text an argument frame stands for.
pub open spec fn string_arg(f: FrameView) -> Result<Seq<char>, Seq<char>> {
    match f {
        FrameView::BulkString(b) => Ok(lossy_text(b)),
        FrameView::SimpleString(s) => Ok(s),
        _ => Err("ERR expected string argument"@),
    }
}

/// The command named by a frame's first element, upper-cased.
pub open spec fn verb_of(f: FrameView) -> Option<Seq<char>> {
    match f {
        FrameView::BulkString(b) => Some(upper_text(lossy_text(b))),
        FrameView::SimpleString(s) => Some(upper_text(s)),
        _ => None,
    }
}

pub open spec fn keyed(arg: FrameView, make: spec_fn(Seq<char>) -> CommandView) -> Result<CommandView, Seq<char>> {
    match string_arg(arg) {
        Ok(k) => Ok(make(k)),
        Err(e) => Err(e),
    }
}

/// The `SET` command with an option: only `EX` and a number of seconds is
/// understood; any other option makes the command unknown.
pub open spec fn set_with_option(a: Seq<FrameView>) -> Result<CommandView, Seq<char>> {
    match string_arg(a[3]) {
        Err(e) => Err(e),
        Ok(opt) => if upper_text(opt) == "EX"@ {
            match string_arg(a[4]) {
                Err(e) => Err(e),
                Ok(secs) => match u64_text(encode_utf8(secs)) {
                    None => Err("Invalid integer for EX"@),
                    Some(t) => keyed(a[1], |k: Seq<char>| CommandView::SetKey { key: k, value: a[2], time: Some(t as u64) }),
                },
            }
        } else {
            Ok(CommandView::Unknown)
        },
    }
}

/// The command that a frame asks for, or the error message it is answered
/// with.
pub open spec fn command_spec(f: FrameView) -> Result<CommandView, Seq<char>> {
    match f {
        FrameView::Array(a) => if a.len() == 0 {
            Err("ERR empty command"@)
        } else {
            match verb_of(a[0]) {
                None => Err("ERR invalid command format"@),
                Some(v) => if v == "GET"@ {
                    if a.len() != 2 {
                        Err("ERR wrong number of arguments for 'get' command"@)
                    } else {
                        keyed(a[1], |k: Seq<char>| CommandView::Get { key: k })
                    }
                } else if v == "SET"@ {
                    if a.len() != 3 && a.len() != 5 {
                        Err("ERR wrong number of arguments for 'set' command"@)
                    } else if a.len() == 5 {
                        set_with_option(a)
                    } else {
                        keyed(a[1], |k: Seq<char>| CommandView::SetKey { key: k, value: a[2], time: None })
                    }
                } else if v == "DEL"@ {
                    if a.len() != 2 {
                        Err("ERR wrong number of arguments for 'del' command"@)
                    } else {
                        keyed(a[1], |k: Seq<char>| CommandView::Del { key: k })
                    }
                } else if v == "EXIST"@ {
                    if a.len() != 2 {
                        Err("ERR wrong number of arguments for 'exist' command"@)
                    } else {
                        keyed(a[1], |k: Seq<char>| CommandView::Exist { key: k })
                    }
                } else {
                    Ok(CommandView::Unknown)
                },
            }
        },
        _ => Err("ERR expected an array of strings"@),
    }
}

/// Whether a parse result stands for the given outcome.
pub open spec fn parsed_as(r: Result<Command, String>, expected: Result<CommandView, Seq<char>>) -> bool {
    match (r, expected) {
        (Ok(c), Ok(v)) => c@ == v,
        (Err(m), Err(e)) => m@ == e,
        _ => false,
    }
}

/// The text of a string argument.
fn extract_string(frame: &RespFrame) -> (r: Result<String, String>)
    ensures
        match (r, string_arg(frame@)) {
            (Ok(s), Ok(t)) => s@ == t,
            (Err(m), Err(e)) => m@ == e,
            _ => false,
        },
{
    match frame {
        RespFrame::BulkString(bytes) => Ok(lossy_string(bytes_as_slice(bytes))),
        RespFrame::SimpleString(s) => Ok(s.clone()),
        _ => Err(message("ERR expected string argument")),
    }
}

impl Command {
    /// Reads a command from a frame: an array whose first element names it
    /// (in any case) and whose others are its arguments.
    pub fn from_frame(frame: RespFrame) -> (r: Result<Command, String>)
        ensures
            parsed_as(r, command_spec(frame@)),
    {
        let array = match frame {
            RespFrame::Array(arr) => arr,
            _ => {
                return Err(message("ERR expected an array of strings"));
            },
        };
        let ghost a = frames_view(array@);
        proof {
            lemma_frames_view(array@);
        }
        assert(frame@ == FrameView::Array(a));
        if array.len() == 0 {
            return Err(message("ERR empty command"));
        }
        let verb = match &array[0] {
            RespFrame::BulkString(bytes) => {
                let text = lossy_string(bytes_as_slice(bytes));
                to_upper(text.as_str())
            },
            RespFrame::SimpleString(s) => to_upper(s.as_str()),
            _ => {
                return Err(message("ERR invalid command format"));
            },
        };
        assert(verb_of(a[0]) == Some(verb@));
        if is_word(&verb, "GET") {
            if array.len() != 2 {
                return Err(message("ERR wrong number of arguments for 'get' command"));
            }
            let key = match extract_string(&array[1]) {
                Ok(k) => k,
                Err(e) => {
                    return Err(e);
                },
            };
            Ok(Command::Get { key })
        } else if is_word(&verb, "SET") {
            if array.len() != 3 && array.len() != 5 {
                return Err(message("ERR wrong number of arguments for 'set' command"));
            }
            if array.len() == 5 {
                let string = match extract_string(&array[3]) {
                    Ok(s) => s,
                    Err(e) => {
                        return Err(e);
                    },
                };
                let upper = to_upper(string.as_str());
                if is_word(&upper, "EX") {
                    let second_string = match extract_string(&array[4]) {
                        Ok(s) => s,
                        Err(e) => {
                            return Err(e);
                        },
                    };
                    let second: u64 = match parse_u64(second_string.as_str().as_bytes()) {
                        Some(n) => n,
                        None => {
                            return Err(message("Invalid integer for EX"));
                        },
                    };
                    let key = match extract_string(&array[1]) {
                        Ok(k) => k,
                        Err(e) => {
                            return Err(e);
                        },
                    };
                    let value = array[2].clone();
                    return Ok(Command::SetKey { key, value, time: Some(second) });
                } else {
                    return Ok(Command::Unknown);
                }
            }
            let key = match extract_string(&array[1]) {
                Ok(k) => k,
                Err(e) => {
                    return Err(e);
                },
            };
            let value = array[2].clone();
            Ok(Command::SetKey { key, value, time: None })
        } else if is_word(&verb, "DEL") {
            if array.len() != 2 {
                return Err(message("ERR wrong number of arguments for 'del' command"));
            }
            let key = match extract_string(&array[1]) {
                Ok(k) => k,
                Err(e) => {
                    return Err(e);
                },
            };
            Ok(Command::Del { key })
        } else if is_word(&verb, "EXIST") {
            if array.len() != 2 {
                return Err(message("ERR wrong number of arguments for 'exist' command"));
            }
            let key = match extract_string(&array[1]) {
                Ok(k) => k,
                Err(e) => {
                    return Err(e);
                },
            };
            Ok(Command::Exist { key })
        } else {
            Ok(Command::Unknown)
        }
    }
}

} // verus!
