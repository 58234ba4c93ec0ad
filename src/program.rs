//! The program representation shared by all operations.
use vstd::prelude::*;

verus! {

/// The class of a command; only `General` (G-codes) is interpreted.
#[derive(Clone, Copy, Debug, PartialEq, Eq, Structural)]
pub enum Mnemonic {
    General,
    Miscellaneous,
    ProgramNumber,
    ToolChange,
}

/// One letter/value pair of a command. The value is a fixed-point
/// coordinate whose scale is chosen by the caller.
#[derive(Clone, Copy, Debug, PartialEq, Eq, Structural)]
pub struct Argument {
    pub letter: char,
    pub value: i64,
}

/// One command: its class, its number (`major.minor`) and its arguments.
#[derive(Debug)]
pub struct Command {
    pub mnemonic: Mnemonic,
    pub major: u32,
    pub minor: u32,
    pub arguments: Vec<Argument>,
}

/// The commands that share one source line.
#[derive(Debug)]
pub struct Line {
    pub commands: Vec<Command>,
}

/// The mathematical value of a [`Command`].
pub struct CommandModel {
    pub mnemonic: Mnemonic,
    pub major: u32,
    pub minor: u32,
    pub arguments: Seq<Argument>,
}

impl View for Command {
    type V = CommandModel;

    open spec fn view(&self) -> CommandModel {
        CommandModel {
            mnemonic: self.mnemonic,
            major: self.major,
            minor: self.minor,
            arguments: self.arguments@,
        }
    }
}

impl View for Line {
    type V = Seq<CommandModel>;

    open spec fn view(&self) -> Seq<CommandModel> {
        self.commands@.map_values(|c: Command| c@)
    }
}

/// The value of a whole program: its lines, each a sequence of commands.
pub open spec fn program_model(lines: Seq<Line>) -> Seq<Seq<CommandModel>> {
    lines.map_values(|l: Line| l@)
}

/// Whether `c` is the letter `upper` in either case (`upper` is an
/// upper-case ASCII letter).
pub open spec fn letter_is(c: char, upper: char) -> bool {
    c == upper || (c as u32) == (upper as u32) + 32
}

/// Case-insensitive comparison of a letter with an upper-case ASCII letter.
pub fn same_letter(c: char, upper: char) -> (r: bool)
    requires
        'A' <= upper <= 'Z',
    ensures
        r == letter_is(c, upper),
{
    c == upper || (c as u32) == (upper as u32) + 32
}

/// The value of the first argument written with the letter `upper`.
pub open spec fn value_for(args: Seq<Argument>, upper: char) -> Option<i64>
    decreases args.len(),
{
    if args.len() == 0 {
        None
    } else if letter_is(args[0].letter, upper) {
        Some(args[0].value)
    } else {
        value_for(args.drop_first(), upper)
    }
}

/// Finds the value of the first argument written with the letter `upper`.
pub fn find_value(args: &Vec<Argument>, upper: char) -> (r: Option<i64>)
    requires
        'A' <= upper <= 'Z',
    ensures
        r == value_for(args@, upper),
{
    let mut i: usize = 0;
    assert(args@.subrange(0, args@.len() as int) =~= args@);
    while i < args.len()
        invariant
            0 <= i <= args@.len(),
            'A' <= upper <= 'Z',
            value_for(args@, upper) == value_for(args@.subrange(i as int, args@.len() as int), upper),
        decreases args.len() - i,
    {
        let a = args[i];
        let ghost rest = args@.subrange(i as int, args@.len() as int);
        assert(rest[0] == a);
        assert(rest.drop_first() =~= args@.subrange(i + 1, args@.len() as int));
        if same_letter(a.letter, upper) {
            return Some(a.value);
        }
        i = i + 1;
    }
    assert(args@.subrange(i as int, args@.len() as int).len() == 0);
    None
}

/// Copies a command, arguments included.
pub fn copy_command(c: &Command) -> (r: Command)
    ensures
        r@ == c@,
{
    let mut arguments: Vec<Argument> = Vec::new();
    let mut i: usize = 0;
    while i < c.arguments.len()
        invariant
            0 <= i <= c.arguments@.len(),
            arguments@ == c.arguments@.subrange(0, i as int),
        decreases c.arguments.len() - i,
    {
        arguments.push(c.arguments[i]);
        i = i + 1;
    }
    assert(arguments@ =~= c.arguments@);
    Command { mnemonic: c.mnemonic, major: c.major, minor: c.minor, arguments }
}

/// Why an operation on a program failed.
#[derive(Debug)]
pub enum GctkError {
    /// A G-code that the operation does not know, as it was found.
    UnsupportedCommand(Command),
    /// The program never established an X or a Y coordinate.
    EmptyExtent,
    /// A relative move on an axis whose position was never set (1-based line).
    UnknownPosition(usize),
    /// A coordinate left the range of the fixed-point representation (1-based line).
    OutOfRange(usize),
}

/// The mathematical value of a [`GctkError`].
pub enum ErrorModel {
    UnsupportedCommand(CommandModel),
    EmptyExtent,
    UnknownPosition(nat),
    OutOfRange(nat),
}

impl View for GctkError {
    type V = ErrorModel;

    open spec fn view(&self) -> ErrorModel {
        match self {
            GctkError::UnsupportedCommand(c) => ErrorModel::UnsupportedCommand(c@),
            GctkError::EmptyExtent => ErrorModel::EmptyExtent,
            GctkError::UnknownPosition(n) => ErrorModel::UnknownPosition(*n as nat),
            GctkError::OutOfRange(n) => ErrorModel::OutOfRange(*n as nat),
        }
    }
}

} // verus!
