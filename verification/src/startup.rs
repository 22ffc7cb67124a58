//! What is settled before a build starts: the input directory, the
//! configuration file to use, and the line that tells the user about both.

use vstd::prelude::*;
use vstd::string::StringExecFns;
use crate::path::extension_of;
use crate::path::file_name_of;
use crate::path::find_last_dot;
use crate::path::has_suffix;
use crate::path::is_parent;
use crate::path::normalized;
use crate::path::NormalizePath;
use crate::path::rows;
use crate::path::same_chars;
use crate::path::split;

verus! {

/// Which configuration file is used, and how it was come by.
#[derive(Debug)]
pub enum LuaurcStatus {
    /// The file that the user named.
    Given(String),
    /// A file found beside the sources.
    AutoSome(String),
    /// None was named and none was found.
    AutoNone,
}

impl LuaurcStatus {
    /// The path of the configuration file, where there is one.
    pub fn as_option(&self) -> (r: Option<&String>)
        ensures
            r == match *self {
                LuaurcStatus::Given(p) => Some(&p),
                LuaurcStatus::AutoSome(p) => Some(&p),
                LuaurcStatus::AutoNone => None,
            },
    {
        match self {
            LuaurcStatus::Given(p) => Some(p),
            LuaurcStatus::AutoSome(p) => Some(p),
            LuaurcStatus::AutoNone => None,
        }
    }
}

/// A text as the standard library prints it for debugging: between quotes,
/// with escapes.
pub uninterp spec fn debug_form(text: Seq<char>) -> Seq<char>;

/// `format!` with `{:#?}` on a string slice, that is the `Debug` impl of
/// `str` in the standard library. The result is a function of the text alone.
#[verifier::external_body]
fn debug_text(text: &str) -> (r: String)
    ensures
        r@ == debug_form(text@),
{
    format!("{:#?}", text)
}

/// The line printed once a build has started.
pub open spec fn startup_text(
    prefix: Seq<char>,
    input_dir: Seq<char>,
    output_dir: Option<Seq<char>>,
    luaurc: LuaurcStatus,
) -> Seq<char> {
    let head = match luaurc {
        LuaurcStatus::Given(p) => "Using Luaurc at "@ + debug_form(p@) + ".\n"@,
        LuaurcStatus::AutoSome(p) => "Using Luaurc automatically found at "@ + debug_form(p@)
            + ".\n"@,
        LuaurcStatus::AutoNone => "No Luaurc was specified or automatically found.\n"@,
    };
    let to = match output_dir {
        Some(o) => " to "@ + debug_form(o),
        None => Seq::empty(),
    };
    head + prefix + " "@ + debug_form(input_dir) + to + "."@
}

/// The line printed once a build has started: the configuration in use, then
/// `prefix` with the input directory and, where one was named, the output
/// directory.
pub fn startup_message(
    prefix: &str,
    input_dir: &String,
    output_dir: Option<&String>,
    luaurc_path: &LuaurcStatus,
) -> (r: String)
    ensures
        r@ == startup_text(
            prefix@,
            input_dir@,
            match output_dir {
                Some(o) => Some(o@),
                None => None,
            },
            *luaurc_path,
        ),
{
    let mut r = match luaurc_path {
        LuaurcStatus::Given(p) => {
            let mut head = "Using Luaurc at ".to_owned();
            head.append(debug_text(p.as_str()).as_str());
            head.append(".\n");
            head
        },
        LuaurcStatus::AutoSome(p) => {
            let mut head = "Using Luaurc automatically found at ".to_owned();
            head.append(debug_text(p.as_str()).as_str());
            head.append(".\n");
            head
        },
        LuaurcStatus::AutoNone => "No Luaurc was specified or automatically found.\n".to_owned(),
    };
    r.append(prefix);
    r.append(" ");
    r.append(debug_text(input_dir.as_str()).as_str());
    let ghost before = r@;
    match output_dir {
        Some(o) => {
            r.append(" to ");
            r.append(debug_text(o.as_str()).as_str());
            proof {
                assert(r@ =~= before + (" to "@ + debug_form(o@)));
            }
        },
        None => {
            proof {
                assert(r@ =~= before + Seq::<char>::empty());
            }
        },
    }
    r.append(".");
    r
}

/// What was found out about the configuration file that the user named.
#[derive(Debug)]
pub enum ExplicitLuaurc {
    /// The user named none.
    NotGiven,
    /// The named path cannot be resolved; it is held as it was written.
    Unresolved(String),
    /// The named path resolves to something that is no file.
    NotAFile,
    /// The named path resolves to this file.
    File(String),
}

/// What was found out about the input that the user named.
#[derive(Debug)]
pub enum InputState {
    /// It resolves to this directory.
    Directory(String),
    /// It resolves to this path, which is no directory.
    NotDirectory(String),
    /// It cannot be resolved; it is held as it was written.
    Unresolved(String),
}

/// The complaint about a named configuration file that cannot be found.
pub open spec fn luaurc_missing_text(raw: Seq<char>) -> Seq<char> {
    "ERROR: Could not find Luaurc at "@ + debug_form(normalized(raw))
}

/// The configuration file to use. A file that the user named is used. A
/// named path that cannot be resolved is an error. Otherwise a file found in
/// the input directory is used, then one found in its parent, then none.
pub open spec fn resolved_luaurc(
    explicit: ExplicitLuaurc,
    in_input: Option<String>,
    in_parent: Option<String>,
) -> Result<LuaurcStatus, Seq<char>> {
    match explicit {
        ExplicitLuaurc::File(p) => Ok(LuaurcStatus::Given(p)),
        ExplicitLuaurc::Unresolved(raw) => Err(luaurc_missing_text(raw@)),
        _ => match in_input {
            Some(p) => Ok(LuaurcStatus::AutoSome(p)),
            None => match in_parent {
                Some(p) => Ok(LuaurcStatus::AutoSome(p)),
                None => Ok(LuaurcStatus::AutoNone),
            },
        },
    }
}

/// The configuration file to use, from what was found out about the one
/// that the user named and from what a look into the input directory and
/// into its parent showed.
pub fn resolve_luaurc_path(
    explicit: ExplicitLuaurc,
    in_input: Option<String>,
    in_parent: Option<String>,
) -> (r: Result<LuaurcStatus, String>)
    ensures
        match r {
            Ok(status) => Ok::<LuaurcStatus, Seq<char>>(status) == resolved_luaurc(
                explicit,
                in_input,
                in_parent,
            ),
            Err(msg) => Err::<LuaurcStatus, Seq<char>>(msg@) == resolved_luaurc(
                explicit,
                in_input,
                in_parent,
            ),
        },
{
    match explicit {
        ExplicitLuaurc::File(p) => {
            return Ok(LuaurcStatus::Given(p));
        },
        ExplicitLuaurc::Unresolved(raw) => {
            let mut msg = "ERROR: Could not find Luaurc at ".to_owned();
            msg.append(debug_text(raw.normalize().as_str()).as_str());
            return Err(msg);
        },
        ExplicitLuaurc::NotAFile => {},
        ExplicitLuaurc::NotGiven => {},
    }
    match in_input {
        Some(p) => Ok(LuaurcStatus::AutoSome(p)),
        None => match in_parent {
            Some(p) => Ok(LuaurcStatus::AutoSome(p)),
            None => Ok(LuaurcStatus::AutoNone),
        },
    }
}

/// The input directory, or the complaint about an input that is none.
pub open spec fn checked_input(state: InputState) -> Result<String, Seq<char>> {
    match state {
        InputState::Directory(p) => Ok(p),
        InputState::NotDirectory(p) => Err(
            "ERROR: The specified input "@ + debug_form(normalized(p@)) + " is not a directory!"@,
        ),
        InputState::Unresolved(raw) => Err(
            "ERROR: The specified input directory "@ + debug_form(normalized(raw@))
                + " doesn't exist!"@,
        ),
    }
}

/// The input directory to build from, or what to tell the user.
pub fn canonicalize_input(state: InputState) -> (r: Result<String, String>)
    ensures
        match r {
            Ok(dir) => Ok::<String, Seq<char>>(dir) == checked_input(state),
            Err(msg) => Err::<String, Seq<char>>(msg@) == checked_input(state),
        },
{
    match state {
        InputState::Directory(p) => Ok(p),
        InputState::NotDirectory(p) => {
            let mut msg = "ERROR: The specified input ".to_owned();
            msg.append(debug_text(p.normalize().as_str()).as_str());
            msg.append(" is not a directory!");
            Err(msg)
        },
        InputState::Unresolved(raw) => {
            let mut msg = "ERROR: The specified input directory ".to_owned();
            msg.append(debug_text(raw.normalize().as_str()).as_str());
            msg.append(" doesn't exist!");
            Err(msg)
        },
    }
}

/// The least position from `k` on at which `name` holds a `.`, or its
/// length.
pub open spec fn next_dot(name: Seq<char>, k: int) -> int
    decreases name.len() - k,
{
    if k < 0 || k >= name.len() {
        name.len() as int
    } else if name[k] == '.' {
        k
    } else {
        next_dot(name, k + 1)
    }
}

/// The part of a file name before its first `.`, a leading `.` not counted.
pub open spec fn prefix_of(name: Seq<char>) -> Seq<char> {
    name.take(next_dot(name, 1))
}

/// The name `luaurc`.
pub open spec fn luaurc_name() -> Seq<char> {
    seq!['l', 'u', 'a', 'u', 'r', 'c']
}

/// A path that may name a configuration file: its file name is `luaurc` or
/// `.luaurc` before the first `.`, or has the extension `luaurc`.
pub open spec fn is_luaurc_path(path: Seq<char>) -> bool {
    file_name_of(path) matches Some(name) && (prefix_of(name) == luaurc_name() || prefix_of(name)
        == seq!['.'] + luaurc_name() || extension_of(name) == Some(luaurc_name()))
}

/// Whether the file at `path` may be a configuration file, by its name.
pub fn is_luaurc_name(path: &str) -> (r: bool)
    ensures
        r == is_luaurc_path(path@),
{
    let parts = split(path);
    if parts.len() == 0 {
        return false;
    }
    let name = &parts[parts.len() - 1];
    proof {
        assert(rows(parts@).last() == name@);
    }
    if is_parent(name) {
        return false;
    }
    let plain = vec!['l', 'u', 'a', 'u', 'r', 'c'];
    let dotted = vec!['.', 'l', 'u', 'a', 'u', 'r', 'c'];
    proof {
        assert(plain@ =~= luaurc_name());
        assert(dotted@ =~= seq!['.'] + luaurc_name());
    }
    let mut end: usize = if name.len() < 1 {
        name.len()
    } else {
        1
    };
    while end < name.len() && name[end] != '.'
        invariant
            end <= name.len(),
            name@.len() >= 1 ==> 1 <= end,
            next_dot(name@, 1) == next_dot(name@, end as int),
        decreases name.len() - end,
    {
        end += 1;
    }
    let mut prefix: Vec<char> = Vec::new();
    let mut i: usize = 0;
    while i < end
        invariant
            end <= name.len(),
            0 <= i <= end,
            prefix@ == name@.take(i as int),
        decreases end - i,
    {
        prefix.push(name[i]);
        proof {
            assert(name@.take(i + 1) =~= name@.take(i as int).push(name@[i as int]));
        }
        i += 1;
    }
    proof {
        assert(prefix@ == prefix_of(name@));
    }
    if same_chars(&prefix, &plain) || same_chars(&prefix, &dotted) {
        return true;
    }
    match find_last_dot(name) {
        Some(d) => {
            if d == 0 {
                return false;
            }
            if name.len() - (d + 1) != plain.len() {
                return false;
            }
            let r = has_suffix(name, &plain);
            proof {
                assert(name@.skip(name@.len() - plain@.len()) == name@.skip(d + 1));
            }
            r
        },
        None => false,
    }
}

} // verus!
