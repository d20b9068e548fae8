//! Errors, their stable codes, exit codes and JSON shape.
use vstd::prelude::*;

use crate::text::{chars_of, digit_char, push_char, push_str};

verus! {

pub const EXIT_SUCCESS: i32 = 0;

pub const EXIT_INTERNAL_ERROR: i32 = 1;

pub const EXIT_USAGE_ERROR: i32 = 2;

pub const EXIT_FILE_ERROR: i32 = 3;

pub const EXIT_SECTION_NOT_FOUND: i32 = 4;

/// How errors are reported: as a text line on stderr or a JSON object on stdout.
#[derive(Clone, Copy, Debug, PartialEq, Eq, Structural)]
pub enum ErrorFormat {
    Text,
    Json,
}

/// A failure to read or decode the input file.
#[derive(Debug)]
pub enum InputError {
    /// The file could not be read; `reason` is the system's description.
    FileRead { path: String, reason: String },
    /// The file is not valid UTF-8.
    Decode { path: String },
}

/// An invalid combination of command-line values.
#[derive(Debug)]
pub struct UsageError {
    message: String,
}

/// Any failure of a command.
#[derive(Debug)]
pub enum AppError {
    Usage(UsageError),
    Input(InputError),
    SectionNotFound { id: String },
    Internal { message: String },
}

/// `{"error":{"code":"<code>","message":"<message>"}}` with the message escaped.
pub open spec fn error_json(code: Seq<char>, message: Seq<char>) -> Seq<char> {
    "{\"error\":{\"code\":\""@ + code + "\",\"message\":\""@ + json_escape(message)
        + "\"}}"@
}

impl InputError {
    pub open spec fn is_decode_of(&self, p: Seq<char>) -> bool {
        self matches InputError::Decode { path } && path@ == p
    }

    pub open spec fn code_spec(&self) -> Seq<char> {
        match self {
            InputError::FileRead { .. } => "file_read_error"@,
            InputError::Decode { .. } => "decode_error"@,
        }
    }

    pub open spec fn message_spec(&self) -> Seq<char> {
        match self {
            InputError::FileRead { path, reason } => "Failed to read file '"@ + path@ + "': "@
                + reason@,
            InputError::Decode { path } => "Failed to decode file '"@ + path@ + "' as UTF-8"@,
        }
    }

    /// Stable machine-readable code.
    pub fn code(&self) -> (r: &'static str)
        ensures
            r@ == self.code_spec(),
    {
        match self {
            InputError::FileRead { .. } => "file_read_error",
            InputError::Decode { .. } => "decode_error",
        }
    }

    /// Human-readable message.
    pub fn message(&self) -> (r: String)
        ensures
            r@ == self.message_spec(),
    {
        let mut out = String::new();
        match self {
            InputError::FileRead { path, reason } => {
                push_str(&mut out, "Failed to read file '");
                push_str(&mut out, path.as_str());
                push_str(&mut out, "': ");
                push_str(&mut out, reason.as_str());
            },
            InputError::Decode { path } => {
                push_str(&mut out, "Failed to decode file '");
                push_str(&mut out, path.as_str());
                push_str(&mut out, "' as UTF-8");
            },
        }
        assert(out@ =~= self.message_spec());
        out
    }
}

impl UsageError {
    pub closed spec fn message_spec(&self) -> Seq<char> {
        self.message@
    }

    pub fn new(message: &str) -> (r: UsageError)
        ensures
            r.message_spec() == message@,
    {
        UsageError { message: message.to_owned() }
    }

    pub fn message(&self) -> (r: &str)
        ensures
            r@ == self.message_spec(),
    {
        self.message.as_str()
    }
}

impl AppError {
    pub open spec fn code_spec(&self) -> Seq<char> {
        match self {
            AppError::Usage(_) => "usage_error"@,
            AppError::Input(e) => e.code_spec(),
            AppError::SectionNotFound { .. } => "section_not_found"@,
            AppError::Internal { .. } => "internal_error"@,
        }
    }

    pub open spec fn exit_code_spec(&self) -> i32 {
        match self {
            AppError::Usage(_) => EXIT_USAGE_ERROR,
            AppError::Input(_) => EXIT_FILE_ERROR,
            AppError::SectionNotFound { .. } => EXIT_SECTION_NOT_FOUND,
            AppError::Internal { .. } => EXIT_INTERNAL_ERROR,
        }
    }

    pub open spec fn message_spec(&self) -> Seq<char> {
        match self {
            AppError::Usage(e) => e.message_spec(),
            AppError::Input(e) => e.message_spec(),
            AppError::SectionNotFound { id } => "Section id not found: "@ + id@,
            AppError::Internal { message } => message@,
        }
    }

    /// `{"error":{"code":"<code>","message":"<message>"}}` with the message escaped.
    pub open spec fn json_spec(&self) -> Seq<char> {
        error_json(self.code_spec(), self.message_spec())
    }

    /// Stable machine-readable code.
    pub fn code(&self) -> (r: &'static str)
        ensures
            r@ == self.code_spec(),
    {
        match self {
            AppError::Usage(_) => "usage_error",
            AppError::Input(e) => e.code(),
            AppError::SectionNotFound { .. } => "section_not_found",
            AppError::Internal { .. } => "internal_error",
        }
    }

    /// Process exit code for this error.
    pub fn exit_code(&self) -> (r: i32)
        ensures
            r == self.exit_code_spec(),
    {
        match self {
            AppError::Usage(_) => EXIT_USAGE_ERROR,
            AppError::Input(_) => EXIT_FILE_ERROR,
            AppError::SectionNotFound { .. } => EXIT_SECTION_NOT_FOUND,
            AppError::Internal { .. } => EXIT_INTERNAL_ERROR,
        }
    }

    /// Human-readable message.
    pub fn message(&self) -> (r: String)
        ensures
            r@ == self.message_spec(),
    {
        match self {
            AppError::Usage(e) => e.message().to_owned(),
            AppError::Input(e) => e.message(),
            AppError::SectionNotFound { id } => {
                let mut out = String::new();
                push_str(&mut out, "Section id not found: ");
                push_str(&mut out, id.as_str());
                assert(out@ =~= self.message_spec());
                out
            },
            AppError::Internal { message } => message.clone(),
        }
    }

    /// The JSON error object.
    pub fn render_json(&self) -> (r: String)
        ensures
            r@ == self.json_spec(),
    {
        let message = self.message();
        let mut out = String::new();
        push_str(&mut out, "{\"error\":{\"code\":\"");
        push_str(&mut out, self.code());
        push_str(&mut out, "\",\"message\":\"");
        push_json_escaped(&mut out, message.as_str());
        push_str(&mut out, "\"}}");
        assert(out@ =~= self.json_spec());
        out
    }
}

impl From<UsageError> for AppError {
    fn from(err: UsageError) -> (r: AppError) {
        AppError::Usage(err)
    }
}

impl vstd::std_specs::convert::FromSpecImpl<UsageError> for AppError {
    open spec fn obeys_from_spec() -> bool {
        true
    }

    open spec fn from_spec(v: UsageError) -> AppError {
        AppError::Usage(v)
    }
}

impl From<InputError> for AppError {
    fn from(err: InputError) -> (r: AppError) {
        AppError::Input(err)
    }
}

impl vstd::std_specs::convert::FromSpecImpl<InputError> for AppError {
    open spec fn obeys_from_spec() -> bool {
        true
    }

    open spec fn from_spec(v: InputError) -> AppError {
        AppError::Input(v)
    }
}

// ---------------------------------------------------------------------
// JSON strings
// ---------------------------------------------------------------------
pub open spec fn hex_digit(d: nat) -> char {
    if d < 10 {
        digit_char(d)
    } else if d == 10 {
        'a'
    } else if d == 11 {
        'b'
    } else if d == 12 {
        'c'
    } else if d == 13 {
        'd'
    } else if d == 14 {
        'e'
    } else {
        'f'
    }
}

/// The JSON string-body escape of one character.
pub open spec fn json_escape_char(c: char) -> Seq<char> {
    if c == '"' {
        seq!['\\', '"']
    } else if c == '\\' {
        seq!['\\', '\\']
    } else if c == '\n' {
        seq!['\\', 'n']
    } else if c == '\r' {
        seq!['\\', 'r']
    } else if c == '\t' {
        seq!['\\', 't']
    } else if (c as u32) < 0x20 {
        seq!['\\', 'u', '0', '0', hex_digit((c as u32 / 16) as nat), hex_digit((c as u32 % 16) as nat)]
    } else {
        seq![c]
    }
}

/// The text escaped for use between the quotes of a JSON string.
pub open spec fn json_escape(s: Seq<char>) -> Seq<char>
    decreases s.len(),
{
    if s.len() == 0 {
        seq![]
    } else {
        json_escape(s.drop_last()) + json_escape_char(s.last())
    }
}

fn hex(d: u32) -> (c: char)
    requires
        d < 16,
    ensures
        c == hex_digit(d as nat),
{
    if d == 0 {
        '0'
    } else if d == 1 {
        '1'
    } else if d == 2 {
        '2'
    } else if d == 3 {
        '3'
    } else if d == 4 {
        '4'
    } else if d == 5 {
        '5'
    } else if d == 6 {
        '6'
    } else if d == 7 {
        '7'
    } else if d == 8 {
        '8'
    } else if d == 9 {
        '9'
    } else if d == 10 {
        'a'
    } else if d == 11 {
        'b'
    } else if d == 12 {
        'c'
    } else if d == 13 {
        'd'
    } else if d == 14 {
        'e'
    } else {
        'f'
    }
}

/// Appends the JSON escape of `s`.
pub fn push_json_escaped(out: &mut String, s: &str)
    ensures
        final(out)@ == old(out)@ + json_escape(s@),
{
    let cs = chars_of(s);
    let mut i: usize = 0;
    while i < cs.len()
        invariant
            i <= cs@.len(),
            cs@ == s@,
            out@ == old(out)@ + json_escape(cs@.take(i as int)),
        decreases cs.len() - i,
    {
        let c = cs[i];
        if c == '"' {
            push_char(out, '\\');
            push_char(out, '"');
        } else if c == '\\' {
            push_char(out, '\\');
            push_char(out, '\\');
        } else if c == '\n' {
            push_char(out, '\\');
            push_char(out, 'n');
        } else if c == '\r' {
            push_char(out, '\\');
            push_char(out, 'r');
        } else if c == '\t' {
            push_char(out, '\\');
            push_char(out, 't');
        } else if (c as u32) < 0x20 {
            push_char(out, '\\');
            push_char(out, 'u');
            push_char(out, '0');
            push_char(out, '0');
            push_char(out, hex(c as u32 / 16));
            push_char(out, hex(c as u32 % 16));
        } else {
            push_char(out, c);
        }
        proof {
            assert(cs@.take(i + 1).drop_last() =~= cs@.take(i as int));
        }
        i += 1;
        assert(out@ =~= old(out)@ + json_escape(cs@.take(i as int)));
    }
    assert(cs@.take(i as int) =~= cs@);
}

/// The JSON escape of `s`, to stand between the quotes of a JSON string.
pub fn escape_json_string(s: &str) -> (r: String)
    ensures
        r@ == json_escape(s@),
{
    let mut out = String::new();
    push_json_escaped(&mut out, s);
    assert(out@ =~= json_escape(s@));
    out
}

} // verus!
