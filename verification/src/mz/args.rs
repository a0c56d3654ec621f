//! The arguments of the tool.
use crate::block::Level;
use crate::mz::path;
use crate::mz::path::{is_compressed_filename, is_stdio_path};
use crate::mz::size;
pub use crate::mz::size::{parse_size, parse_size_with_nl};
use crate::mz::text;
use crate::mz::text::{joined, parse_number, same, split_once, strip_prefix};
use crate::stream::Concurrency;
use vstd::prelude::*;
use vstd::string::*;

verus! {

/// An argument: its text, and whether it was valid UTF-8. Where it was not, the text
/// stands in for what was given.
#[derive(Debug)]
pub struct Arg {
    /// The text.
    pub text: String,
    /// Whether it was valid UTF-8.
    pub utf8: bool,
}

/// The text of an argument, and whether it was valid.
#[verifier::ext_equal]
pub struct ArgView {
    /// The text.
    pub text: Seq<char>,
    /// Whether it was valid UTF-8.
    pub utf8: bool,
}

impl View for Arg {
    type V = ArgView;

    open spec fn view(&self) -> ArgView {
        ArgView { text: self.text@, utf8: self.utf8 }
    }
}

impl Arg {
    /// An argument that is valid UTF-8.
    pub fn new(text: &str) -> (r: Self)
        ensures
            r@ == (ArgView { text: text@, utf8: true }),
    {
        Arg { text: text.to_owned(), utf8: true }
    }
}

/// What to do.
#[derive(Debug, Clone, Copy, PartialEq, Eq, Structural)]
pub enum Subcommand {
    /// Compress a file.
    Compress,
    /// Decompress a file.
    Decompress,
    /// Read a file and check it.
    Verify,
    /// Compress and decompress again and again, and take the time.
    Bench,
}

/// How to do it.
#[derive(Debug)]
pub struct Options {
    /// Compression level.
    pub level: Option<Level>,
    /// Whether nothing is compressed.
    pub uncompressed: bool,
    /// Largest block.
    pub block_size: Option<usize>,
    /// The size of the stream is a multiple of this.
    pub padding: Option<u32>,
    /// Whether the file is a single block.
    pub block: bool,
    /// Whether the output goes to standard output.
    pub stdout: bool,
    /// Where the output goes.
    pub output: Option<String>,
    /// Whether the input is removed in the end.
    pub remove: bool,
    /// Whether nothing is said.
    pub quiet: bool,
    /// Whether the result is checked.
    pub verify: bool,
    /// How often to repeat it.
    pub bench_n: Option<u32>,
    /// How many workers there are; as many as the machine can run where it is not given.
    pub threads: Option<Concurrency>,
    /// Whether an index stands at the end of the stream.
    pub index: bool,
    /// Where to begin.
    pub offset: Option<u64>,
    /// How much of the end to take.
    pub tail: Option<u64>,
    /// Whether to begin behind the next line end.
    pub tail_next_nl: bool,
    /// Whether to wait for more at the end of the file.
    pub follow: bool,
    /// Whether to print a help text.
    pub help: bool,
}

/// The options as values.
#[verifier::ext_equal]
pub struct OptionsView {
    /// Compression level.
    pub level: Option<Level>,
    /// Whether nothing is compressed.
    pub uncompressed: bool,
    /// Largest block.
    pub block_size: Option<usize>,
    /// The size of the stream is a multiple of this.
    pub padding: Option<u32>,
    /// Whether the file is a single block.
    pub block: bool,
    /// Whether the output goes to standard output.
    pub stdout: bool,
    /// Where the output goes.
    pub output: Option<Seq<char>>,
    /// Whether the input is removed in the end.
    pub remove: bool,
    /// Whether nothing is said.
    pub quiet: bool,
    /// Whether the result is checked.
    pub verify: bool,
    /// How often to repeat it.
    pub bench_n: Option<u32>,
    /// How many workers there are.
    pub threads: Option<usize>,
    /// Whether an index stands at the end of the stream.
    pub index: bool,
    /// Where to begin.
    pub offset: Option<u64>,
    /// How much of the end to take.
    pub tail: Option<u64>,
    /// Whether to begin behind the next line end.
    pub tail_next_nl: bool,
    /// Whether to wait for more at the end of the file.
    pub follow: bool,
    /// Whether to print a help text.
    pub help: bool,
}

/// The text that may be there.
pub open spec fn text_of(s: Option<String>) -> Option<Seq<char>> {
    match s {
        None => None,
        Some(t) => Some(t@),
    }
}

impl View for Options {
    type V = OptionsView;

    open spec fn view(&self) -> OptionsView {
        OptionsView {
            level: self.level,
            uncompressed: self.uncompressed,
            block_size: self.block_size,
            padding: self.padding,
            block: self.block,
            stdout: self.stdout,
            output: text_of(self.output),
            remove: self.remove,
            quiet: self.quiet,
            verify: self.verify,
            bench_n: self.bench_n,
            threads: match self.threads {
                None => None,
                Some(c) => Some(c.count()),
            },
            index: self.index,
            offset: self.offset,
            tail: self.tail,
            tail_next_nl: self.tail_next_nl,
            follow: self.follow,
            help: self.help,
        }
    }
}

/// The options where none are given.
pub open spec fn default_options() -> OptionsView {
    OptionsView {
        level: None,
        uncompressed: false,
        block_size: None,
        padding: None,
        block: false,
        stdout: false,
        output: None,
        remove: false,
        quiet: false,
        verify: false,
        bench_n: None,
        threads: None,
        index: true,
        offset: None,
        tail: None,
        tail_next_nl: false,
        follow: false,
        help: false,
    }
}

impl Default for Options {
    fn default() -> (r: Self)
        ensures
            r@ == default_options(),
    {
        Options {
            level: None,
            uncompressed: false,
            block_size: None,
            padding: None,
            block: false,
            stdout: false,
            output: None,
            remove: false,
            quiet: false,
            verify: false,
            bench_n: None,
            threads: None,
            index: true,
            offset: None,
            tail: None,
            tail_next_nl: false,
            follow: false,
            help: false,
        }
    }
}

/// What the arguments ask for.
#[derive(Debug)]
pub struct Cli {
    /// What to do.
    pub subcommand: Subcommand,
    /// How to do it.
    pub options: Options,
    /// The file to do it with.
    pub input: Option<String>,
}

/// What the arguments ask for, as values.
#[verifier::ext_equal]
pub struct CliView {
    /// What to do.
    pub subcommand: Subcommand,
    /// How to do it.
    pub options: OptionsView,
    /// The file to do it with.
    pub input: Option<Seq<char>>,
}

impl View for Cli {
    type V = CliView;

    open spec fn view(&self) -> CliView {
        CliView {
            subcommand: self.subcommand,
            options: self.options@,
            input: text_of(self.input),
        }
    }
}

/// What is wrong with the arguments.
#[derive(Debug)]
pub enum ParseError {
    /// There is no such flag.
    UnknownFlag(String),
    /// A flag has no value.
    MissingValue(String),
    /// A flag has a value that it cannot have.
    InvalidValue(String, String),
    /// There is neither a subcommand nor a file.
    NoSubcommand,
    /// A level is given, and that nothing is compressed.
    ConflictingLevels,
    /// There is more than one file.
    TooManyInputs,
}

/// What is wrong with the arguments, as values.
#[verifier::ext_equal]
pub enum ParseErrorView {
    /// There is no such flag.
    UnknownFlag(Seq<char>),
    /// A flag has no value.
    MissingValue(Seq<char>),
    /// A flag has a value that it cannot have.
    InvalidValue(Seq<char>, Seq<char>),
    /// There is neither a subcommand nor a file.
    NoSubcommand,
    /// A level is given, and that nothing is compressed.
    ConflictingLevels,
    /// There is more than one file.
    TooManyInputs,
}

impl View for ParseError {
    type V = ParseErrorView;

    open spec fn view(&self) -> ParseErrorView {
        match self {
            ParseError::UnknownFlag(s) => ParseErrorView::UnknownFlag(s@),
            ParseError::MissingValue(s) => ParseErrorView::MissingValue(s@),
            ParseError::InvalidValue(s, v) => ParseErrorView::InvalidValue(s@, v@),
            ParseError::NoSubcommand => ParseErrorView::NoSubcommand,
            ParseError::ConflictingLevels => ParseErrorView::ConflictingLevels,
            ParseError::TooManyInputs => ParseErrorView::TooManyInputs,
        }
    }
}

impl ParseErrorView {
    /// The error in words.
    pub open spec fn text(self) -> Seq<char> {
        match self {
            ParseErrorView::UnknownFlag(s) => "unknown flag: "@ + s,
            ParseErrorView::MissingValue(s) => "missing value for "@ + s,
            ParseErrorView::InvalidValue(s, v) => "invalid value for "@ + s + ": "@ + v,
            ParseErrorView::NoSubcommand =>
            "no subcommand or input file given; try: mz c <file> | mz d <file> | mz --help"@,
            ParseErrorView::ConflictingLevels => "conflicting compression levels"@,
            ParseErrorView::TooManyInputs => "only one input file is supported"@,
        }
    }
}

impl ParseError {
    /// Returns a message for the error.
    pub fn message(&self) -> (r: String)
        ensures
            r@ == self@.text(),
    {
        match self {
            ParseError::UnknownFlag(s) => joined("unknown flag: ", s.as_str()),
            ParseError::MissingValue(s) => joined("missing value for ", s.as_str()),
            ParseError::InvalidValue(s, v) => {
                let mut r: String = joined("invalid value for ", s.as_str());
                r.append(": ");
                r.append(v.as_str());
                r
            },
            ParseError::NoSubcommand =>
            "no subcommand or input file given; try: mz c <file> | mz d <file> | mz --help".to_owned(),
            ParseError::ConflictingLevels => "conflicting compression levels".to_owned(),
            ParseError::TooManyInputs => "only one input file is supported".to_owned(),
        }
    }
}

/// A result is as it should be, and so is what was changed.
spec fn turns_out(
    r: Result<(), ParseError>,
    o: OptionsView,
    want: Result<OptionsView, ParseErrorView>,
) -> bool {
    match (r, want) {
        (Ok(_), Ok(w)) => o == w,
        (Err(e), Err(w)) => e@ == w,
        _ => false,
    }
}

/// The level that a value stands for.
pub open spec fn level_value(val: Seq<char>) -> Option<Level> {
    if val == "1"@ || val == "fastest"@ {
        Some(Level::Fastest)
    } else if val == "2"@ || val == "balanced"@ {
        Some(Level::Balanced)
    } else if val == "3"@ || val == "smallest"@ {
        Some(Level::Smallest)
    } else {
        None
    }
}

/// Reads a level.
fn parse_level(val: &str) -> (r: Option<Level>)
    ensures
        r == level_value(val@),
{
    if same(val, "1") || same(val, "fastest") {
        Some(Level::Fastest)
    } else if same(val, "2") || same(val, "balanced") {
        Some(Level::Balanced)
    } else if same(val, "3") || same(val, "smallest") {
        Some(Level::Smallest)
    } else {
        None
    }
}

/// A value that a flag cannot have.
pub open spec fn invalid(name: Seq<char>, val: Seq<char>) -> ParseErrorView {
    ParseErrorView::InvalidValue("--"@ + name, val)
}

/// Options, or what is wrong with a value.
pub type Change = Result<OptionsView, ParseErrorView>;

/// The options with a level.
pub open spec fn with_level(o: OptionsView, val: Seq<char>) -> Change {
    match level_value(val) {
        Some(l) => Ok(OptionsView { level: Some(l), ..o }),
        None => Err(invalid("level"@, val)),
    }
}

/// The options with a largest block.
pub open spec fn with_block_size(o: OptionsView, val: Seq<char>) -> Change {
    match size::size(val) {
        Ok(n) => Ok(OptionsView { block_size: Some(n as usize), ..o }),
        Err(_) => Err(invalid("block-size"@, val)),
    }
}

/// The options with a size to pad to.
pub open spec fn with_padding(o: OptionsView, val: Seq<char>) -> Change {
    match size::size(val) {
        Ok(n) => Ok(OptionsView { padding: Some(n as u32), ..o }),
        Err(_) => Err(invalid("pad"@, val)),
    }
}

/// The options with how often to repeat it.
pub open spec fn with_bench(o: OptionsView, val: Seq<char>) -> Change {
    match text::number(val, u32::MAX as int) {
        Some(n) => Ok(OptionsView { bench_n: Some(n as u32), ..o }),
        None => Err(invalid("bench"@, val)),
    }
}

/// The options with a number of workers; the flag has two names.
pub open spec fn with_threads(o: OptionsView, name: Seq<char>, val: Seq<char>) -> Change {
    match text::number(val, usize::MAX as int) {
        Some(n) => if n >= 1 {
            Ok(OptionsView { threads: Some(n as usize), ..o })
        } else {
            Err(invalid(name, "must be \u{2265} 1"@))
        },
        None => Err(invalid(name, val)),
    }
}

/// The options with an index or without.
pub open spec fn with_index(o: OptionsView, val: Seq<char>) -> Change {
    if val == "true"@ || val == "1"@ || val == "yes"@ {
        Ok(OptionsView { index: true, ..o })
    } else if val == "false"@ || val == "0"@ || val == "no"@ {
        Ok(OptionsView { index: false, ..o })
    } else {
        Err(invalid("index"@, val))
    }
}

/// The options with a place to begin.
pub open spec fn with_offset(o: OptionsView, val: Seq<char>) -> Change {
    match size::size_with_nl(val) {
        Ok((n, nl)) => Ok(OptionsView { offset: Some(n), tail_next_nl: o.tail_next_nl || nl, ..o }),
        Err(_) => Err(invalid("offset"@, val)),
    }
}

/// The options with how much of the end to take.
pub open spec fn with_tail(o: OptionsView, val: Seq<char>) -> Change {
    match size::size_with_nl(val) {
        Ok((n, nl)) => Ok(OptionsView { tail: Some(n), tail_next_nl: o.tail_next_nl || nl, ..o }),
        Err(_) => Err(invalid("tail"@, val)),
    }
}

/// The options with the value of a flag set, or what is wrong with it.
#[verifier::opaque]
pub open spec fn with_value(o: OptionsView, name: Seq<char>, val: Seq<char>) -> Change {
    if name == "level"@ {
        with_level(o, val)
    } else if name == "block-size"@ {
        with_block_size(o, val)
    } else if name == "pad"@ {
        with_padding(o, val)
    } else if name == "output"@ {
        Ok(OptionsView { output: Some(val), ..o })
    } else if name == "bench"@ {
        with_bench(o, val)
    } else if name == "threads"@ || name == "cpu"@ {
        with_threads(o, name, val)
    } else if name == "index"@ {
        with_index(o, val)
    } else if name == "offset"@ {
        with_offset(o, val)
    } else if name == "tail"@ {
        with_tail(o, val)
    } else {
        Err(ParseErrorView::UnknownFlag("--"@ + name))
    }
}

fn invalid_value(name: &str, val: &str) -> (r: ParseError)
    ensures
        r@ == invalid(name@, val@),
{
    ParseError::InvalidValue(joined("--", name), val.to_owned())
}

fn set_level(val: &str, opts: &mut Options) -> (r: Result<(), ParseError>)
    ensures
        turns_out(r, final(opts)@, with_level(old(opts)@, val@)),
{
    match parse_level(val) {
        Some(l) => {
            opts.level = Some(l);
            Ok(())
        },
        None => Err(invalid_value("level", val)),
    }
}

fn set_block_size(val: &str, opts: &mut Options) -> (r: Result<(), ParseError>)
    ensures
        turns_out(r, final(opts)@, with_block_size(old(opts)@, val@)),
{
    match parse_size(val) {
        Ok(n) => {
            opts.block_size = Some(n as usize);
            Ok(())
        },
        Err(_) => Err(invalid_value("block-size", val)),
    }
}

fn set_padding(val: &str, opts: &mut Options) -> (r: Result<(), ParseError>)
    ensures
        turns_out(r, final(opts)@, with_padding(old(opts)@, val@)),
{
    match parse_size(val) {
        Ok(n) => {
            opts.padding = Some(n as u32);
            Ok(())
        },
        Err(_) => Err(invalid_value("pad", val)),
    }
}

fn set_bench(val: &str, opts: &mut Options) -> (r: Result<(), ParseError>)
    ensures
        turns_out(r, final(opts)@, with_bench(old(opts)@, val@)),
{
    match parse_number(val, u32::MAX as u64) {
        Some(n) => {
            opts.bench_n = Some(n as u32);
            Ok(())
        },
        None => Err(invalid_value("bench", val)),
    }
}

fn set_threads(name: &str, val: &str, opts: &mut Options) -> (r: Result<(), ParseError>)
    ensures
        turns_out(r, final(opts)@, with_threads(old(opts)@, name@, val@)),
{
    match parse_number(val, usize::MAX as u64) {
        Some(n) => match Concurrency::new(n as usize) {
            Some(c) => {
                opts.threads = Some(c);
                Ok(())
            },
            None => Err(invalid_value(name, "must be \u{2265} 1")),
        },
        None => Err(invalid_value(name, val)),
    }
}

fn set_index(val: &str, opts: &mut Options) -> (r: Result<(), ParseError>)
    ensures
        turns_out(r, final(opts)@, with_index(old(opts)@, val@)),
{
    if same(val, "true") || same(val, "1") || same(val, "yes") {
        opts.index = true;
    } else if same(val, "false") || same(val, "0") || same(val, "no") {
        opts.index = false;
    } else {
        return Err(invalid_value("index", val));
    }
    Ok(())
}

fn set_offset(val: &str, opts: &mut Options) -> (r: Result<(), ParseError>)
    ensures
        turns_out(r, final(opts)@, with_offset(old(opts)@, val@)),
{
    match parse_size_with_nl(val) {
        Ok((n, nl)) => {
            opts.offset = Some(n);
            if nl {
                opts.tail_next_nl = true;
            }
            Ok(())
        },
        Err(_) => Err(invalid_value("offset", val)),
    }
}

fn set_tail(val: &str, opts: &mut Options) -> (r: Result<(), ParseError>)
    ensures
        turns_out(r, final(opts)@, with_tail(old(opts)@, val@)),
{
    match parse_size_with_nl(val) {
        Ok((n, nl)) => {
            opts.tail = Some(n);
            if nl {
                opts.tail_next_nl = true;
            }
            Ok(())
        },
        Err(_) => Err(invalid_value("tail", val)),
    }
}

/// Sets the value of a flag.
fn set_long_value(name: &str, val: &str, opts: &mut Options) -> (r: Result<(), ParseError>)
    ensures
        turns_out(r, final(opts)@, with_value(old(opts)@, name@, val@)),
{
    proof {
        reveal(with_value);
    }
    if same(name, "level") {
        set_level(val, opts)
    } else if same(name, "block-size") {
        set_block_size(val, opts)
    } else if same(name, "pad") {
        set_padding(val, opts)
    } else if same(name, "output") {
        opts.output = Some(val.to_owned());
        Ok(())
    } else if same(name, "bench") {
        set_bench(val, opts)
    } else if same(name, "threads") || same(name, "cpu") {
        set_threads(name, val, opts)
    } else if same(name, "index") {
        set_index(val, opts)
    } else if same(name, "offset") {
        set_offset(val, opts)
    } else if same(name, "tail") {
        set_tail(val, opts)
    } else {
        Err(ParseError::UnknownFlag(joined("--", name)))
    }
}

/// What an argument leads to: the options, and how many arguments it took.
pub type Taken = Result<(OptionsView, int), ParseErrorView>;

/// The options with a flag set that has no value.
pub open spec fn with_switch(o: OptionsView, name: Seq<char>) -> Option<OptionsView> {
    if name == "block"@ {
        Some(OptionsView { block: true, ..o })
    } else if name == "stdout"@ {
        Some(OptionsView { stdout: true, ..o })
    } else if name == "rm"@ {
        Some(OptionsView { remove: true, ..o })
    } else if name == "quiet"@ {
        Some(OptionsView { quiet: true, ..o })
    } else if name == "verify"@ {
        Some(OptionsView { verify: true, ..o })
    } else if name == "help"@ {
        Some(OptionsView { help: true, ..o })
    } else if name == "index"@ {
        Some(OptionsView { index: true, ..o })
    } else if name == "no-index"@ {
        Some(OptionsView { index: false, ..o })
    } else if name == "follow"@ {
        Some(OptionsView { follow: true, ..o })
    } else {
        None
    }
}

/// The value of a flag that stands in the next argument.
pub open spec fn next_value(flag: Seq<char>, next: Option<ArgView>) -> Result<
    Seq<char>,
    ParseErrorView,
> {
    match next {
        None => Err(ParseErrorView::MissingValue(flag)),
        Some(a) => if a.utf8 {
            Ok(a.text)
        } else {
            Err(ParseErrorView::InvalidValue(flag, "<non-utf8>"@))
        },
    }
}

/// The options that an argument leads to that took `n` arguments.
pub open spec fn took(c: Change, n: int) -> Taken {
    match c {
        Ok(o) => Ok((o, n)),
        Err(e) => Err(e),
    }
}

/// What a flag with a long name leads to: one with its value behind `=`, one without a
/// value, or one with its value in the next argument.
#[verifier::opaque]
pub open spec fn with_long(o: OptionsView, name: Seq<char>, next: Option<ArgView>) -> Taken {
    match text::split(name, '=') {
        Some((k, v)) => took(with_value(o, k, v), 1),
        None => match with_switch(o, name) {
            Some(x) => Ok((x, 1)),
            None => match next_value("--"@ + name, next) {
                Err(e) => Err(e),
                Ok(v) => took(with_value(o, name, v), 2),
            },
        },
    }
}

/// The options with a flag of one letter set that has no value.
pub open spec fn with_letter(o: OptionsView, c: char) -> Option<OptionsView> {
    match c {
        '0' => Some(OptionsView { uncompressed: true, ..o }),
        '1' => Some(OptionsView { level: Some(Level::Fastest), ..o }),
        '2' => Some(OptionsView { level: Some(Level::Balanced), ..o }),
        '3' => Some(OptionsView { level: Some(Level::Smallest), ..o }),
        'c' => Some(OptionsView { stdout: true, ..o }),
        'q' => Some(OptionsView { quiet: true, ..o }),
        'h' => Some(OptionsView { help: true, ..o }),
        _ => None,
    }
}

/// The name is longer than one ASCII letter.
pub open spec fn is_long(stem: Seq<char>) -> bool {
    stem.len() > 1 || (stem.len() == 1 && stem[0] > '\u{7f}')
}

/// What stands before `=`.
pub open spec fn stem(name: Seq<char>) -> Seq<char> {
    match text::split(name, '=') {
        Some((k, _)) => k,
        None => name,
    }
}

/// What a flag with one dash leads to: one with a long name, one of one letter, or the
/// output with its path behind the letter or in the next argument.
#[verifier::opaque]
pub open spec fn with_short(o: OptionsView, name: Seq<char>, next: Option<ArgView>) -> Taken {
    if is_long(stem(name)) {
        with_long(o, name, next)
    } else if name[0] == 'o' {
        if name.len() > 1 {
            Ok((OptionsView { output: Some(name.skip(1)), ..o }, 1))
        } else {
            match next_value("-o"@, next) {
                Err(e) => Err(e),
                Ok(v) => Ok((OptionsView { output: Some(v), ..o }, 2)),
            }
        }
    } else {
        match with_letter(o, name[0]) {
            None => Err(ParseErrorView::UnknownFlag(seq!['-', name[0]])),
            Some(x) => if name.len() > 1 {
                Err(ParseErrorView::UnknownFlag(seq!['-', name[1]]))
            } else {
                Ok((x, 1))
            },
        }
    }
}

/// A result is as it should be, and so is what was changed.
spec fn takes(r: Result<usize, ParseError>, o: OptionsView, want: Taken) -> bool {
    match (r, want) {
        (Ok(n), Ok((w, k))) => o == w && n == k,
        (Err(e), Err(w)) => e@ == w,
        _ => false,
    }
}

/// Sets a flag without a value. Returns whether there is one of that name.
fn set_switch(name: &str, opts: &mut Options) -> (r: bool)
    ensures
        (match with_switch(old(opts)@, name@) {
            Some(o) => r && final(opts)@ == o,
            None => !r && final(opts)@ == old(opts)@,
        }),
{
    if same(name, "block") {
        opts.block = true;
    } else if same(name, "stdout") {
        opts.stdout = true;
    } else if same(name, "rm") {
        opts.remove = true;
    } else if same(name, "quiet") {
        opts.quiet = true;
    } else if same(name, "verify") {
        opts.verify = true;
    } else if same(name, "help") {
        opts.help = true;
    } else if same(name, "index") {
        opts.index = true;
    } else if same(name, "no-index") {
        opts.index = false;
    } else if same(name, "follow") {
        opts.follow = true;
    } else {
        return false;
    }
    true
}

/// The argument that may be there.
pub open spec fn arg_at(args: Seq<Arg>, i: int) -> Option<ArgView> {
    if 0 <= i < args.len() {
        Some(args[i]@)
    } else {
        None
    }
}

/// Returns the value that stands in argument `i`.
fn value_at<'a>(flag: &str, args: &'a [Arg], i: usize) -> (r: Result<&'a str, ParseError>)
    ensures
        (match next_value(flag@, arg_at(args@, i as int)) {
            Ok(v) => r is Ok && (r->Ok_0)@ == v,
            Err(e) => r is Err && (r->Err_0)@ == e,
        }),
{
    if i >= args.len() {
        return Err(ParseError::MissingValue(flag.to_owned()));
    }
    if args[i].utf8 {
        Ok(args[i].text.as_str())
    } else {
        Err(ParseError::InvalidValue(flag.to_owned(), "<non-utf8>".to_owned()))
    }
}

/// Takes a flag with a long name; argument `i` is the next one. Returns how many arguments
/// it took.
fn apply_long_flag(name: &str, args: &[Arg], i: usize, opts: &mut Options) -> (r: Result<
    usize,
    ParseError,
>)
    ensures
        takes(r, final(opts)@, with_long(old(opts)@, name@, arg_at(args@, i as int))),
{
    proof {
        reveal(with_long);
    }
    if let Some((k, v)) = split_once(name, '=') {
        return match set_long_value(k, v, opts) {
            Ok(()) => Ok(1),
            Err(e) => Err(e),
        };
    }
    if set_switch(name, opts) {
        return Ok(1);
    }
    let flag: String = joined("--", name);
    match value_at(flag.as_str(), args, i) {
        Err(e) => Err(e),
        Ok(v) => match set_long_value(name, v, opts) {
            Ok(()) => Ok(2),
            Err(e) => Err(e),
        },
    }
}

/// Sets a flag of one letter. Returns whether there is one.
fn set_letter(c: char, opts: &mut Options) -> (r: bool)
    ensures
        (match with_letter(old(opts)@, c) {
            Some(o) => r && final(opts)@ == o,
            None => !r && final(opts)@ == old(opts)@,
        }),
{
    match c {
        '0' => {
            opts.uncompressed = true;
        },
        '1' => {
            opts.level = Some(Level::Fastest);
        },
        '2' => {
            opts.level = Some(Level::Balanced);
        },
        '3' => {
            opts.level = Some(Level::Smallest);
        },
        'c' => {
            opts.stdout = true;
        },
        'q' => {
            opts.quiet = true;
        },
        'h' => {
            opts.help = true;
        },
        _ => {
            return false;
        },
    }
    true
}

/// The flag of one letter at `i` in `name`, with its dash.
fn letter_flag(name: &str, i: usize) -> (r: String)
    requires
        i < name@.len(),
    ensures
        r@ == seq!['-', name@[i as int]],
{
    let n: usize = name.unicode_len();
    assert(i < n);
    let r: String = joined("-", name.substring_char(i, i + 1));
    proof {
        reveal_strlit("-");
        assert(r@ =~= seq!['-', name@[i as int]]);
    }
    r
}

/// Takes a flag with one dash; argument `i` is the next one. Returns how many arguments it
/// took.
fn apply_short_flag(name: &str, args: &[Arg], i: usize, opts: &mut Options) -> (r: Result<
    usize,
    ParseError,
>)
    requires
        name@.len() > 0,
    ensures
        takes(r, final(opts)@, with_short(old(opts)@, name@, arg_at(args@, i as int))),
{
    proof {
        reveal(with_short);
    }
    let first: &str = match split_once(name, '=') {
        Some((k, _)) => k,
        None => name,
    };
    let k: usize = first.unicode_len();
    if k > 1 || (k == 1 && first.get_char(0) > '\u{7f}') {
        return apply_long_flag(name, args, i, opts);
    }
    let n: usize = name.unicode_len();
    let c: char = name.get_char(0);
    if c == 'o' {
        if n > 1 {
            assert(name@.subrange(1, n as int) =~= name@.skip(1));
            opts.output = Some(name.substring_char(1, n).to_owned());
            return Ok(1);
        }
        return match value_at("-o", args, i) {
            Err(e) => Err(e),
            Ok(v) => {
                opts.output = Some(v.to_owned());
                Ok(2)
            },
        };
    }
    if !set_letter(c, opts) {
        return Err(ParseError::UnknownFlag(letter_flag(name, 0)));
    }
    if n > 1 {
        return Err(ParseError::UnknownFlag(letter_flag(name, 1)));
    }
    Ok(1)
}

/// A name of a subcommand that stands for more than the subcommand.
#[derive(Debug, Clone, Copy, PartialEq, Eq, Structural)]
pub enum SubcommandAlias {
    /// Just the subcommand.
    Plain,
    /// Decompress to standard output.
    Cat,
    /// Decompress the end to standard output.
    Tail,
}

/// The subcommand of a name.
pub open spec fn subcommand(s: Seq<char>) -> Option<Subcommand> {
    if s == "c"@ || s == "compress"@ {
        Some(Subcommand::Compress)
    } else if s == "d"@ || s == "decompress"@ || s == "cat"@ || s == "tail"@ {
        Some(Subcommand::Decompress)
    } else if s == "verify"@ {
        Some(Subcommand::Verify)
    } else if s == "bench"@ {
        Some(Subcommand::Bench)
    } else {
        None
    }
}

/// What else the name of a subcommand stands for.
pub open spec fn alias(s: Seq<char>) -> SubcommandAlias {
    if s == "cat"@ {
        SubcommandAlias::Cat
    } else if s == "tail"@ {
        SubcommandAlias::Tail
    } else {
        SubcommandAlias::Plain
    }
}

/// Returns the subcommand of a name.
fn parse_subcommand(s: &str) -> (r: Option<Subcommand>)
    ensures
        r == subcommand(s@),
{
    if same(s, "c") || same(s, "compress") {
        Some(Subcommand::Compress)
    } else if same(s, "d") || same(s, "decompress") || same(s, "cat") || same(s, "tail") {
        Some(Subcommand::Decompress)
    } else if same(s, "verify") {
        Some(Subcommand::Verify)
    } else if same(s, "bench") {
        Some(Subcommand::Bench)
    } else {
        None
    }
}

/// Returns what else the name of a subcommand stands for.
fn subcommand_alias(s: &str) -> (r: SubcommandAlias)
    ensures
        r == alias(s@),
{
    if same(s, "cat") {
        SubcommandAlias::Cat
    } else if same(s, "tail") {
        SubcommandAlias::Tail
    } else {
        SubcommandAlias::Plain
    }
}

/// What the arguments so far have led to.
#[verifier::ext_equal]
pub struct State {
    /// The subcommand.
    pub sub: Option<Subcommand>,
    /// What else its name stands for.
    pub alias: SubcommandAlias,
    /// The options.
    pub options: OptionsView,
    /// The file.
    pub input: Option<Seq<char>>,
    /// Whether a help text is asked for and nothing else counts.
    pub help_only: bool,
}

/// The state before the first argument.
pub open spec fn start() -> State {
    State {
        sub: None,
        alias: SubcommandAlias::Plain,
        options: default_options(),
        input: None,
        help_only: false,
    }
}

/// The state with other options, after as many arguments.
pub open spec fn with_options(st: State, t: Taken) -> Result<(State, int), ParseErrorView> {
    match t {
        Ok((o, n)) => Ok((State { options: o, ..st }, n)),
        Err(e) => Err(e),
    }
}

/// What an argument leads to, and how many arguments it took: a subcommand where there is
/// none yet, a flag, or a file.
pub open spec fn stepped(st: State, s: Seq<char>, next: Option<ArgView>) -> Result<
    (State, int),
    ParseErrorView,
> {
    if s == "--help"@ || s == "-h"@ {
        Ok((State { help_only: true, options: OptionsView { help: true, ..st.options }, ..st }, 1))
    } else if st.sub is None && text::behind(s, "-"@) is None && subcommand(s) is Some {
        Ok((State { sub: subcommand(s), alias: alias(s), ..st }, 1))
    } else if s == "-"@ {
        Ok((State { input: Some("-"@), ..st }, 1))
    } else {
        match text::behind(s, "--"@) {
            Some(name) => with_options(st, with_long(st.options, name, next)),
            None => match text::behind(s, "-"@) {
                Some(name) => with_options(st, with_short(st.options, name, next)),
                None => if st.input is Some {
                    Err(ParseErrorView::TooManyInputs)
                } else {
                    Ok((State { input: Some(s), ..st }, 1))
                },
            },
        }
    }
}

/// The state after all arguments from the `i`-th on.
pub open spec fn walked(args: Seq<Arg>, i: int, st: State) -> Result<State, ParseErrorView>
    decreases args.len() - i,
{
    if i < 0 || i >= args.len() {
        Ok(st)
    } else {
        proof {
            lemma_step(st, args[i]@.text, arg_at(args, i + 1));
        }
        match stepped(st, args[i]@.text, arg_at(args, i + 1)) {
            Err(e) => Err(e),
            Ok((x, n)) => walked(args, i + n, x),
        }
    }
}

/// The options that the name of a subcommand stands for.
pub open spec fn with_alias(o: OptionsView, a: SubcommandAlias) -> OptionsView {
    match a {
        SubcommandAlias::Plain => o,
        SubcommandAlias::Cat => OptionsView { stdout: true, ..o },
        SubcommandAlias::Tail => if o.tail is None && !o.follow {
            OptionsView { stdout: true, tail: Some(1024), tail_next_nl: true, ..o }
        } else {
            OptionsView { stdout: true, ..o }
        },
    }
}

/// What does not go together with waiting for more.
pub open spec fn follow_error(o: OptionsView, input: Option<Seq<char>>) -> Option<ParseErrorView> {
    if !o.follow {
        None
    } else if o.tail is Some {
        Some(ParseErrorView::InvalidValue("--follow"@, "cannot be combined with --tail"@))
    } else if o.bench_n is Some {
        Some(ParseErrorView::InvalidValue("--follow"@, "cannot be combined with --bench"@))
    } else if input is Some && path::is_stdio(input->0) {
        Some(ParseErrorView::InvalidValue("--follow"@, "cannot follow stdin"@))
    } else {
        None
    }
}

/// The subcommand that was given or that the file stands for.
pub open spec fn chosen(st: State) -> Option<Subcommand> {
    match st.sub {
        Some(c) => Some(c),
        None => match st.input {
            None => None,
            Some(p) => if path::is_compressed(p) {
                Some(Subcommand::Decompress)
            } else {
                Some(Subcommand::Compress)
            },
        },
    }
}

/// The options with what the subcommand and its name stand for, or what does not go
/// together.
#[verifier::opaque]
pub open spec fn settled_options(
    o: OptionsView,
    c: Subcommand,
    a: SubcommandAlias,
    input: Option<Seq<char>>,
) -> Change {
    if o.uncompressed && o.level is Some {
        Err(ParseErrorView::ConflictingLevels)
    } else {
        let n = if c == Subcommand::Bench && o.bench_n is None {
            Some(5u32)
        } else {
            o.bench_n
        };
        let x = with_alias(OptionsView { bench_n: n, ..o }, a);
        match follow_error(x, input) {
            Some(e) => Err(e),
            None => Ok(x),
        }
    }
}

/// What all arguments together ask for.
pub open spec fn settled(st: State) -> Result<CliView, ParseErrorView> {
    if st.help_only {
        Ok(
            CliView {
                subcommand: match st.sub {
                    Some(c) => c,
                    None => Subcommand::Compress,
                },
                options: st.options,
                input: st.input,
            },
        )
    } else {
        match chosen(st) {
            None => Err(ParseErrorView::NoSubcommand),
            Some(c) => match settled_options(st.options, c, st.alias, st.input) {
                Err(e) => Err(e),
                Ok(o) => Ok(CliView { subcommand: c, options: o, input: st.input }),
            },
        }
    }
}

/// What arguments ask for.
pub open spec fn parsed(args: Seq<Arg>) -> Result<CliView, ParseErrorView> {
    match walked(args, 0, start()) {
        Err(e) => Err(e),
        Ok(st) => settled(st),
    }
}

struct Parsing {
    sub: Option<Subcommand>,
    alias: SubcommandAlias,
    options: Options,
    input: Option<String>,
    help_only: bool,
}

impl View for Parsing {
    type V = State;

    closed spec fn view(&self) -> State {
        State {
            sub: self.sub,
            alias: self.alias,
            options: self.options@,
            input: text_of(self.input),
            help_only: self.help_only,
        }
    }
}

impl Parsing {
    /// Takes argument `i`; returns how many arguments it took.
    fn step(&mut self, args: &[Arg], i: usize) -> (r: Result<usize, ParseError>)
        requires
            i < args.len(),
        ensures
            (match stepped(old(self)@, args@[i as int]@.text, arg_at(args@, i + 1)) {
                Ok((st, n)) => r is Ok && r->Ok_0 == n && final(self)@ == st,
                Err(e) => r is Err && (r->Err_0)@ == e,
            }),
    {
        let s: &str = args[i].text.as_str();
        if same(s, "--help") || same(s, "-h") {
            self.help_only = true;
            self.options.help = true;
            return Ok(1);
        }
        if self.sub.is_none() && strip_prefix(s, "-").is_none() {
            if let Some(c) = parse_subcommand(s) {
                self.sub = Some(c);
                self.alias = subcommand_alias(s);
                return Ok(1);
            }
        }
        if same(s, "-") {
            self.input = Some("-".to_owned());
            return Ok(1);
        }
        if let Some(name) = strip_prefix(s, "--") {
            return apply_long_flag(name, args, i + 1, &mut self.options);
        }
        if let Some(name) = strip_prefix(s, "-") {
            proof {
                reveal_strlit("-");
                assert(s@ =~= "-"@ + name@);
                if name@.len() == 0 {
                    assert(s@ =~= "-"@);
                }
            }
            return apply_short_flag(name, args, i + 1, &mut self.options);
        }
        if self.input.is_some() {
            return Err(ParseError::TooManyInputs);
        }
        self.input = Some(s.to_owned());
        Ok(1)
    }

    /// Returns what all arguments together ask for.
    fn settle(self) -> (r: Result<Cli, ParseError>)
        ensures
            (match settled(self@) {
                Ok(c) => r is Ok && (r->Ok_0)@ == c,
                Err(e) => r is Err && (r->Err_0)@ == e,
            }),
    {
        let mut options: Options = self.options;
        let input: Option<String> = self.input;
        if self.help_only {
            let subcommand: Subcommand = match self.sub {
                Some(c) => c,
                None => Subcommand::Compress,
            };
            return Ok(Cli { subcommand, options, input });
        }
        let subcommand: Subcommand = match choose_subcommand(self.sub, &input) {
            None => {
                return Err(ParseError::NoSubcommand);
            },
            Some(c) => c,
        };
        match settle_options(&mut options, subcommand, self.alias, &input) {
            Err(e) => {
                return Err(e);
            },
            Ok(()) => {},
        }
        Ok(Cli { subcommand, options, input })
    }
}

/// Returns the subcommand that was given or that the file stands for.
fn choose_subcommand(sub: Option<Subcommand>, input: &Option<String>) -> (r: Option<Subcommand>)
    ensures
        forall|st: State|
            st.sub == sub && st.input == text_of(*input) ==> r == #[trigger] chosen(st),
{
    match sub {
        Some(c) => Some(c),
        None => match input {
            None => None,
            Some(p) => if is_compressed_filename(p.as_str()) {
                Some(Subcommand::Decompress)
            } else {
                Some(Subcommand::Compress)
            },
        },
    }
}

/// Sets the options that the name of a subcommand stands for.
fn apply_alias(options: &mut Options, a: SubcommandAlias)
    ensures
        final(options)@ == with_alias(old(options)@, a),
{
    match a {
        SubcommandAlias::Cat => {
            options.stdout = true;
        },
        SubcommandAlias::Tail => {
            options.stdout = true;
            if options.tail.is_none() && !options.follow {
                options.tail = Some(1024);
                options.tail_next_nl = true;
            }
        },
        SubcommandAlias::Plain => {},
    }
}

/// Sets the options that the subcommand and its name stand for.
#[verifier::spinoff_prover]
#[verifier::rlimit(40)]
fn settle_options(
    options: &mut Options,
    c: Subcommand,
    a: SubcommandAlias,
    input: &Option<String>,
) -> (r: Result<(), ParseError>)
    ensures
        turns_out(r, final(options)@, settled_options(old(options)@, c, a, text_of(*input))),
{
    proof {
        reveal(settled_options);
    }
    if options.uncompressed && options.level.is_some() {
        return Err(ParseError::ConflictingLevels);
    }
    if c == Subcommand::Bench && options.bench_n.is_none() {
        options.bench_n = Some(5);
    }
    apply_alias(options, a);
    match follow_conflict(options, input) {
        Some(why) => Err(ParseError::InvalidValue("--follow".to_owned(), why.to_owned())),
        None => Ok(()),
    }
}

/// Returns what does not go together with waiting for more.
fn follow_conflict(o: &Options, input: &Option<String>) -> (r: Option<&'static str>)
    ensures
        (match follow_error(o@, text_of(*input)) {
            None => r is None,
            Some(e) => r is Some && e == ParseErrorView::InvalidValue("--follow"@, (r->0)@),
        }),
{
    if !o.follow {
        return None;
    }
    if o.tail.is_some() {
        return Some("cannot be combined with --tail");
    }
    if o.bench_n.is_some() {
        return Some("cannot be combined with --bench");
    }
    match input {
        Some(p) if is_stdio_path(p.as_str()) => Some("cannot follow stdin"),
        _ => None,
    }
}

/// Reads the arguments, without the name of the tool.
///
/// The first argument that names a subcommand is it. Where none does, the extension of the
/// file decides between compressing and decompressing.
pub fn parse(args: &[Arg]) -> (r: Result<Cli, ParseError>)
    ensures
        (match parsed(args@) {
            Ok(c) => r is Ok && (r->Ok_0)@ == c,
            Err(e) => r is Err && (r->Err_0)@ == e,
        }),
{
    let mut st: Parsing = Parsing {
        sub: None,
        alias: SubcommandAlias::Plain,
        options: Options::default(),
        input: None,
        help_only: false,
    };
    assert(st@ =~= start());
    let mut i: usize = 0;
    while i < args.len()
        invariant
            walked(args@, 0, start()) == walked(args@, i as int, st@),
        decreases args.len() - i,
    {
        proof {
            lemma_step(st@, args@[i as int]@.text, arg_at(args@, i + 1));
        }
        match st.step(args, i) {
            Err(e) => {
                return Err(e);
            },
            Ok(n) => {
                if n >= args.len() - i {
                    i = args.len();
                } else {
                    i = i + n;
                }
            },
        }
    }
    st.settle()
}

proof fn lemma_value_keeps_help(o: OptionsView, name: Seq<char>, val: Seq<char>)
    ensures
        with_value(o, name, val) matches Ok(x) ==> x.help == o.help,
{
    reveal(with_value);
}

proof fn lemma_long_keeps_help(o: OptionsView, name: Seq<char>, next: Option<ArgView>)
    ensures
        with_long(o, name, next) matches Ok((x, n)) ==> {
            &&& n == 1 || (n == 2 && next is Some)
            &&& o.help ==> x.help
        },
{
    reveal(with_long);
    match text::split(name, '=') {
        Some((k, v)) => {
            lemma_value_keeps_help(o, k, v);
        },
        None => {
            if let Ok(v) = next_value("--"@ + name, next) {
                lemma_value_keeps_help(o, name, v);
            }
        },
    }
}

proof fn lemma_short_keeps_help(o: OptionsView, name: Seq<char>, next: Option<ArgView>)
    ensures
        with_short(o, name, next) matches Ok((x, n)) ==> {
            &&& n == 1 || (n == 2 && next is Some)
            &&& o.help ==> x.help
        },
{
    reveal(with_short);
    lemma_long_keeps_help(o, name, next);
}

/// An argument takes one argument or two, and does not take back that a help text is asked
/// for.
pub proof fn lemma_step(st: State, s: Seq<char>, next: Option<ArgView>)
    ensures
        stepped(st, s, next) matches Ok((x, n)) ==> {
            &&& n == 1 || (n == 2 && next is Some)
            &&& (st.help_only ==> st.options.help) ==> (x.help_only ==> x.options.help)
        },
{
    if let Some(name) = text::behind(s, "--"@) {
        lemma_long_keeps_help(st.options, name, next);
    }
    if let Some(name) = text::behind(s, "-"@) {
        lemma_short_keeps_help(st.options, name, next);
    }
}

/// A help text alone is asked for only where one is asked for.
pub proof fn lemma_help_only(args: Seq<Arg>, i: int, st: State)
    requires
        st.help_only ==> st.options.help,
    ensures
        walked(args, i, st) matches Ok(x) ==> (x.help_only ==> x.options.help),
    decreases args.len() - i,
{
    if 0 <= i < args.len() {
        let next = arg_at(args, i + 1);
        lemma_step(st, args[i]@.text, next);
        if let Ok((x, n)) = stepped(st, args[i]@.text, next) {
            lemma_help_only(args, i + n, x);
        }
    }
}

/// What arguments ask for goes together: a level only where something is compressed, a
/// number of times for a benchmark, and waiting for more only from a file, to its end, once.
/// Only where a help text is asked for it may not.
pub proof fn law_options_agree(args: Seq<Arg>)
    ensures
        parsed(args) matches Ok(c) ==> (!c.options.help ==> {
            &&& !(c.options.uncompressed && c.options.level is Some)
            &&& c.subcommand == Subcommand::Bench ==> c.options.bench_n is Some
            &&& c.options.follow ==> c.options.tail is None && c.options.bench_n is None
            &&& c.options.follow ==> (c.input matches Some(p) ==> !path::is_stdio(p))
        }),
{
    reveal(settled_options);
    lemma_help_only(args, 0, start());
}

/// Where no subcommand is given, the file decides: one with the extension of a compressed
/// file is decompressed, another one is compressed.
pub proof fn law_extension_decides(args: Seq<Arg>)
    ensures
        walked(args, 0, start()) matches Ok(st) ==> (st.sub is None && !st.help_only ==> (parsed(
            args,
        ) matches Ok(c) ==> {
            &&& c.input is Some
            &&& c.subcommand == if path::is_compressed(c.input->0) {
                Subcommand::Decompress
            } else {
                Subcommand::Compress
            }
        })),
{
}

} // verus!
