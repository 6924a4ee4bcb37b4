//! The errors that the cube operations and the commands report.
use vstd::prelude::*;
use vstd::string::StringExecFns;
use crate::text::IntParse;

verus! {

/// An error of a cube operation or of a command. The `&'static str` field
/// names the operation that failed.
pub enum CSError {
    InvalidCommand(String),
    NameSyntax(String),
    NonExistentName(&'static str, String),
    NullPointer(&'static str),
    SameStruct(&'static str, String),
    InvalidArguments(String),
    DuplicateName(&'static str, String),
    ParseError(&'static str, String),
    EmptyValue(&'static str, String),
    /// A number in the input could not be read.
    OtherError(IntParse),
}

/// The value of an error: its texts as character sequences.
pub enum ErrView {
    InvalidCommand(Seq<char>),
    NameSyntax(Seq<char>),
    NonExistentName(Seq<char>, Seq<char>),
    NullPointer(Seq<char>),
    SameStruct(Seq<char>, Seq<char>),
    InvalidArguments(Seq<char>),
    DuplicateName(Seq<char>, Seq<char>),
    ParseError(Seq<char>, Seq<char>),
    EmptyValue(Seq<char>, Seq<char>),
    OtherError(IntParse),
}

impl View for CSError {
    type V = ErrView;

    open spec fn view(&self) -> ErrView {
        match self {
            CSError::InvalidCommand(s) => ErrView::InvalidCommand(s@),
            CSError::NameSyntax(s) => ErrView::NameSyntax(s@),
            CSError::NonExistentName(f, s) => ErrView::NonExistentName(f@, s@),
            CSError::NullPointer(f) => ErrView::NullPointer(f@),
            CSError::SameStruct(f, s) => ErrView::SameStruct(f@, s@),
            CSError::InvalidArguments(s) => ErrView::InvalidArguments(s@),
            CSError::DuplicateName(f, s) => ErrView::DuplicateName(f@, s@),
            CSError::ParseError(f, s) => ErrView::ParseError(f@, s@),
            CSError::EmptyValue(f, s) => ErrView::EmptyValue(f@, s@),
            CSError::OtherError(k) => ErrView::OtherError(*k),
        }
    }
}

pub type CSResult<T> = Result<T, CSError>;

/// The value of the outcome of an operation that gives nothing back on success.
pub open spec fn outcome(r: CSResult<()>) -> Result<(), ErrView> {
    match r {
        Ok(_) => Ok(()),
        Err(e) => Err(e@),
    }
}


/// The message of a number that could not be read.
pub open spec fn int_parse_message(k: IntParse) -> Seq<char> {
    match k {
        IntParse::Empty => "cannot parse integer from empty string"@,
        IntParse::InvalidDigit => "invalid digit found in string"@,
        IntParse::PosOverflow => "number too large to fit in target type"@,
        IntParse::NegOverflow => "number too small to fit in target type"@,
    }
}

/// The name of the kind of a number that could not be read.
pub open spec fn int_parse_kind(k: IntParse) -> Seq<char> {
    match k {
        IntParse::Empty => "Empty"@,
        IntParse::InvalidDigit => "InvalidDigit"@,
        IntParse::PosOverflow => "PosOverflow"@,
        IntParse::NegOverflow => "NegOverflow"@,
    }
}

/// The message of an error, for the user.
pub open spec fn err_message(e: ErrView) -> Seq<char> {
    match e {
        ErrView::InvalidCommand(s) => "'"@ + s + "' is not a valid command name. Type 'usage' for valid commands."@,
        ErrView::NameSyntax(s) => "Cube name "@ + s + " can only contain the valid characters [0-9a-zA-Z()]+ or contain only ?."@,
        ErrView::NonExistentName(_, s) => "Cube name(s) "@ + s + " not found"@,
        ErrView::NullPointer(_) => "CubeDLL pointer does not point to anything"@,
        ErrView::SameStruct(_, s) => "CubeDLL pointer linking points to the same cube name \""@ + s + "\" (disallowed)"@,
        ErrView::InvalidArguments(s) => "Invalid arguments given in program. Correct usage: \""@ + s + "\""@,
        ErrView::DuplicateName(_, s) => "Cube name \""@ + s + "\" already exists"@,
        ErrView::ParseError(_, s) => "Unable to parse string from file. Reason: "@ + s,
        ErrView::EmptyValue(_, s) => "Empty value for key(s) "@ + s,
        ErrView::OtherError(k) => int_parse_message(k),
    }
}

/// The short form of an error: its kind, and the operation where it names one.
pub open spec fn err_kind_text(e: ErrView) -> Seq<char> {
    match e {
        ErrView::InvalidCommand(_) => "{ CSError type: InvalidCommand }"@,
        ErrView::NameSyntax(_) => "{ CSError type: CubeName }"@,
        ErrView::NonExistentName(f, _) => "{ CSError type: NonExistentName, function: "@ + f + " }"@,
        ErrView::NullPointer(f) => "{ CSError type: NullPointer, function: "@ + f + " }"@,
        ErrView::SameStruct(f, _) => "{ CSError type: SameStruct, function: "@ + f + " }"@,
        ErrView::InvalidArguments(_) => "{ CSError type: InvalidArguments }"@,
        ErrView::DuplicateName(f, _) => "{ CSError type: DuplicateName, function: "@ + f + " }"@,
        ErrView::ParseError(f, _) => "{ CSError type: ParseError, function: "@ + f + " }"@,
        ErrView::EmptyValue(f, _) => "{ CSError type: EmptyValue, function: "@ + f + " }"@,
        ErrView::OtherError(k) => "Rust Error: ParseIntError { kind: "@ + int_parse_kind(k) + " }"@,
    }
}

fn add_text(r: &mut String, s: &str)
    ensures
        final(r)@ == old(r)@ + s@,
{
    r.append(s);
}

impl CSError {
    /// The message of the error, for the user.
    pub fn describe(&self) -> (r: String)
        ensures
            r@ == err_message(self@),
    {
        let mut r = String::new();
        match self {
            CSError::InvalidCommand(s) => {
                add_text(&mut r, "'");
                add_text(&mut r, s.as_str());
                add_text(&mut r, "' is not a valid command name. Type 'usage' for valid commands.");
            },
            CSError::NameSyntax(s) => {
                add_text(&mut r, "Cube name ");
                add_text(&mut r, s.as_str());
                add_text(&mut r, " can only contain the valid characters [0-9a-zA-Z()]+ or contain only ?.");
            },
            CSError::NonExistentName(_, s) => {
                add_text(&mut r, "Cube name(s) ");
                add_text(&mut r, s.as_str());
                add_text(&mut r, " not found");
            },
            CSError::NullPointer(_) => {
                add_text(&mut r, "CubeDLL pointer does not point to anything");
            },
            CSError::SameStruct(_, s) => {
                add_text(&mut r, "CubeDLL pointer linking points to the same cube name \"");
                add_text(&mut r, s.as_str());
                add_text(&mut r, "\" (disallowed)");
            },
            CSError::InvalidArguments(s) => {
                add_text(&mut r, "Invalid arguments given in program. Correct usage: \"");
                add_text(&mut r, s.as_str());
                add_text(&mut r, "\"");
            },
            CSError::DuplicateName(_, s) => {
                add_text(&mut r, "Cube name \"");
                add_text(&mut r, s.as_str());
                add_text(&mut r, "\" already exists");
            },
            CSError::ParseError(_, s) => {
                add_text(&mut r, "Unable to parse string from file. Reason: ");
                add_text(&mut r, s.as_str());
            },
            CSError::EmptyValue(_, s) => {
                add_text(&mut r, "Empty value for key(s) ");
                add_text(&mut r, s.as_str());
            },
            CSError::OtherError(k) => match k {
                IntParse::Empty => add_text(&mut r, "cannot parse integer from empty string"),
                IntParse::InvalidDigit => add_text(&mut r, "invalid digit found in string"),
                IntParse::PosOverflow => add_text(&mut r, "number too large to fit in target type"),
                IntParse::NegOverflow => add_text(&mut r, "number too small to fit in target type"),
            },
        }
        assert(r@ =~= err_message(self@));
        r
    }

    /// The short form of the error: its kind, and the operation where it
    /// names one.
    pub fn kind_text(&self) -> (r: String)
        ensures
            r@ == err_kind_text(self@),
    {
        let mut r = String::new();
        match self {
            CSError::InvalidCommand(_) => add_text(&mut r, "{ CSError type: InvalidCommand }"),
            CSError::NameSyntax(_) => add_text(&mut r, "{ CSError type: CubeName }"),
            CSError::NonExistentName(f, _) => {
                add_text(&mut r, "{ CSError type: NonExistentName, function: ");
                add_text(&mut r, f);
                add_text(&mut r, " }");
            },
            CSError::NullPointer(f) => {
                add_text(&mut r, "{ CSError type: NullPointer, function: ");
                add_text(&mut r, f);
                add_text(&mut r, " }");
            },
            CSError::SameStruct(f, _) => {
                add_text(&mut r, "{ CSError type: SameStruct, function: ");
                add_text(&mut r, f);
                add_text(&mut r, " }");
            },
            CSError::InvalidArguments(_) => add_text(&mut r, "{ CSError type: InvalidArguments }"),
            CSError::DuplicateName(f, _) => {
                add_text(&mut r, "{ CSError type: DuplicateName, function: ");
                add_text(&mut r, f);
                add_text(&mut r, " }");
            },
            CSError::ParseError(f, _) => {
                add_text(&mut r, "{ CSError type: ParseError, function: ");
                add_text(&mut r, f);
                add_text(&mut r, " }");
            },
            CSError::EmptyValue(f, _) => {
                add_text(&mut r, "{ CSError type: EmptyValue, function: ");
                add_text(&mut r, f);
                add_text(&mut r, " }");
            },
            CSError::OtherError(k) => {
                add_text(&mut r, "Rust Error: ParseIntError { kind: ");
                match k {
                    IntParse::Empty => add_text(&mut r, "Empty"),
                    IntParse::InvalidDigit => add_text(&mut r, "InvalidDigit"),
                    IntParse::PosOverflow => add_text(&mut r, "PosOverflow"),
                    IntParse::NegOverflow => add_text(&mut r, "NegOverflow"),
                }
                add_text(&mut r, " }");
            },
        }
        assert(r@ =~= err_kind_text(self@));
        r
    }
}

} // verus!
