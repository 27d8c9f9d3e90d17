//! Names the project tree gives files: the default names of new scripts
//! and what a typed new name is checked and completed against.
use vstd::prelude::*;
use crate::text::{append_str, chars_of, dec, push_decimal, string_from, sub_chars, trim, trim_bounds};

verus! {

/// Highest attempt number for the default name of a new script; past it
/// no name is found.
pub const UNTITLED_TRIES: u32 = 999;

/// The default name at attempt `n` for a new script: `untitled.lua`, then
/// `untitled1.lua`, `untitled2.lua`, ….
pub open spec fn untitled_name_spec(n: nat) -> Seq<char> {
    if n == 0 {
        "untitled.lua"@
    } else {
        "untitled"@ + dec(n) + ".lua"@
    }
}

/// The default name at attempt `n` (see [`untitled_name_spec`]).
pub fn untitled_name(n: u32) -> (r: String)
    ensures
        r@ == untitled_name_spec(n as nat),
{
    if n == 0 {
        return String::from_str("untitled.lua");
    }
    let mut out = chars_of("untitled");
    push_decimal(&mut out, n as u64);
    append_str(&mut out, ".lua");
    string_from(out.as_slice())
}

/// Why a typed name is refused.
#[derive(Clone, Copy, Debug, PartialEq, Eq, Structural)]
pub enum RenameError {
    /// Nothing but white space was typed.
    Empty,
    /// The name holds `/`, `\`, `:` or `*`.
    IllegalChar,
}

/// A character a file name may not hold.
pub open spec fn illegal_name_char(c: char) -> bool {
    c == '/' || c == '\\' || c == ':' || c == '*'
}

/// The file name a typed name gives: the trimmed text, refused when empty
/// or holding an illegal character (see [`illegal_name_char`]); a new
/// file's name without any `.` gets `.lua` appended.
pub open spec fn rename_target(input: Seq<char>, is_new: bool) -> Result<Seq<char>, RenameError> {
    let name = trim(input);
    if name.len() == 0 {
        Err(RenameError::Empty)
    } else if exists|i: int| 0 <= i < name.len() && illegal_name_char(#[trigger] name[i]) {
        Err(RenameError::IllegalChar)
    } else if is_new && !name.contains('.') {
        Ok(name + ".lua"@)
    } else {
        Ok(name)
    }
}

/// The file name that the typed `input` gives (see [`rename_target`]).
pub fn rename_target_name(input: &str, is_new: bool) -> (r: Result<String, RenameError>)
    ensures
        match r {
            Ok(s) => rename_target(input@, is_new) == Ok::<Seq<char>, RenameError>(s@),
            Err(e) => rename_target(input@, is_new) == Err::<Seq<char>, RenameError>(e),
        },
{
    let v = chars_of(input);
    let (lo, hi) = trim_bounds(v.as_slice(), 0, v.len());
    proof {
        assert(v@.subrange(0, v@.len() as int) =~= v@);
    }
    let name = sub_chars(v.as_slice(), lo, hi);
    let ghost nm = trim(input@);
    if name.len() == 0 {
        return Err(RenameError::Empty);
    }
    let mut has_dot = false;
    let mut i: usize = 0;
    while i < name.len()
        invariant
            i <= name@.len(),
            name@ == nm,
            nm == trim(input@),
            forall|j: int| 0 <= j < i ==> !illegal_name_char(#[trigger] nm[j]),
            has_dot == (exists|j: int| 0 <= j < i && nm[j] == '.'),
        decreases name.len() - i,
    {
        let c = name[i];
        if c == '/' || c == '\\' || c == ':' || c == '*' {
            proof {
                assert(nm[i as int] == c);
                assert(illegal_name_char(nm[i as int]));
                assert(exists|j: int| 0 <= j < nm.len() && illegal_name_char(#[trigger] nm[j]));
            }
            return Err(RenameError::IllegalChar);
        }
        if c == '.' {
            has_dot = true;
        }
        i = i + 1;
    }
    proof {
        assert(has_dot == nm.contains('.'));
    }
    let mut out = name;
    if is_new && !has_dot {
        append_str(&mut out, ".lua");
    }
    Ok(string_from(out.as_slice()))
}

/// The message shown for a refused name.
pub fn rename_error_message(e: RenameError) -> (r: String)
    ensures
        r@ == match e {
            RenameError::Empty => "名称不能为空"@,
            RenameError::IllegalChar => "名称含非法字符"@,
        },
{
    match e {
        RenameError::Empty => String::from_str("名称不能为空"),
        RenameError::IllegalChar => String::from_str("名称含非法字符"),
    }
}

} // verus!
