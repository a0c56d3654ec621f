//! What the arguments of the tool stand for, by their names.
use crate::block::Level;
use crate::mz::args;
use crate::mz::args::{Arg, ArgView, CliView, OptionsView, ParseErrorView, State, Subcommand};
use crate::mz::size;
use crate::mz::text;
use vstd::prelude::*;
use vstd::string::*;

verus! {

/// The first argument is this word.
pub open spec fn starts_with(a: Seq<Arg>, word: Seq<char>) -> bool {
    a.len() > 0 && a[0]@.text == word
}

/// A text that does not start with a dash.
pub open spec fn plain(s: Seq<char>) -> bool {
    s.len() == 0 || s[0] != '-'
}

proof fn lemma_plain(s: Seq<char>)
    requires
        plain(s),
    ensures
        text::behind(s, "-"@) is None,
        text::behind(s, "--"@) is None,
        s != "--help"@,
        s != "-h"@,
        s != "-"@,
{
    reveal_strlit("-");
    reveal_strlit("--");
    reveal_strlit("--help");
    reveal_strlit("-h");
    if "-"@.is_prefix_of(s) {
        assert(s[0] == "-"@[0]);
    }
    if "--"@.is_prefix_of(s) {
        assert(s[0] == "--"@[0]);
    }
}

/// What the names of the subcommands are.
proof fn lemma_names()
    ensures
        plain("c"@) && plain("compress"@) && plain("d"@) && plain("decompress"@) && plain("cat"@)
            && plain("tail"@) && plain("verify"@) && plain("bench"@),
        args::subcommand("c"@) == Some(Subcommand::Compress),
        args::subcommand("compress"@) == Some(Subcommand::Compress),
        args::subcommand("d"@) == Some(Subcommand::Decompress),
        args::subcommand("decompress"@) == Some(Subcommand::Decompress),
        args::subcommand("cat"@) == Some(Subcommand::Decompress),
        args::subcommand("tail"@) == Some(Subcommand::Decompress),
        args::subcommand("verify"@) == Some(Subcommand::Verify),
        args::subcommand("bench"@) == Some(Subcommand::Bench),
        args::alias("cat"@) is Cat,
        args::alias("tail"@) is Tail,
        args::alias("c"@) is Plain && args::alias("compress"@) is Plain,
        args::alias("d"@) is Plain && args::alias("decompress"@) is Plain,
        args::alias("verify"@) is Plain && args::alias("bench"@) is Plain,
{
    reveal_strlit("c");
    reveal_strlit("compress");
    reveal_strlit("d");
    reveal_strlit("decompress");
    reveal_strlit("cat");
    reveal_strlit("tail");
    reveal_strlit("verify");
    reveal_strlit("bench");
    assert("c"@.len() == 1 && "d"@.len() == 1 && "cat"@.len() == 3 && "tail"@.len() == 4);
    assert("bench"@.len() == 5 && "verify"@.len() == 6);
    assert("compress"@.len() == 8 && "decompress"@.len() == 10);
    assert("c"@[0] == 'c' && "d"@[0] == 'd');
}

/// A subcommand that was found stays.
proof fn lemma_sub_stays(a: Seq<Arg>, i: int, st: State)
    requires
        st.sub is Some,
    ensures
        args::walked(a, i, st) matches Ok(x) ==> x.sub == st.sub && x.alias == st.alias,
    decreases a.len() - i,
{
    if 0 <= i < a.len() {
        let next = args::arg_at(a, i + 1);
        args::lemma_step(st, a[i]@.text, next);
        if let Ok((x, n)) = args::stepped(st, a[i]@.text, next) {
            lemma_sub_stays(a, i + n, x);
        }
    }
}

proof fn lemma_first(a: Seq<Arg>, word: Seq<char>)
    requires
        starts_with(a, word),
        plain(word),
        args::subcommand(word) is Some,
    ensures
        args::parsed(a) matches Ok(c) ==> {
            &&& Some(c.subcommand) == args::subcommand(word)
            &&& !c.options.help && args::alias(word) is Cat ==> c.options.stdout
            &&& !c.options.help && args::alias(word) is Tail ==> c.options.stdout && (
            c.options.tail is Some || c.options.follow)
        },
{
    reveal(args::settled_options);
    lemma_plain(word);
    let next = args::arg_at(a, 1);
    args::lemma_step(args::start(), word, next);
    if let Ok((x, n)) = args::stepped(args::start(), word, next) {
        assert(args::walked(a, 0, args::start()) == args::walked(a, n, x));
        lemma_sub_stays(a, n, x);
        args::lemma_help_only(a, 0, args::start());
    }
}

/// The first argument says what to do: `c` and `compress` to compress; `d` and `decompress`
/// to decompress; `cat` and `tail` to decompress to standard output, `tail` a part; `verify`
/// to check; `bench` to take the time. What else there is does not change that.
pub proof fn law_first_argument(a: Seq<Arg>)
    ensures
        args::parsed(a) matches Ok(c) ==> {
            &&& starts_with(a, "c"@) || starts_with(a, "compress"@) ==> c.subcommand is Compress
            &&& starts_with(a, "d"@) || starts_with(a, "decompress"@) ==> c.subcommand is Decompress
            &&& starts_with(a, "cat"@) || starts_with(a, "tail"@) ==> c.subcommand is Decompress
                && (c.options.help || c.options.stdout)
            &&& starts_with(a, "tail"@) ==> c.options.help || c.options.tail is Some
                || c.options.follow
            &&& starts_with(a, "verify"@) ==> c.subcommand is Verify
            &&& starts_with(a, "bench"@) ==> c.subcommand is Bench
        },
{
    lemma_names();
    if a.len() > 0 {
        let word = a[0]@.text;
        if plain(word) && args::subcommand(word) is Some {
            lemma_first(a, word);
        }
    }
}

/// What a subcommand and a file alone ask for: that subcommand for that file, and nothing
/// else. `cat` and `tail` write to standard output, `tail` the last 1024 bytes from the next
/// line on; `bench` repeats five times.
pub proof fn law_subcommand_and_file(a: Seq<Arg>)
    requires
        a.len() == 2,
        plain(a[1]@.text),
    ensures
        ({
            let file = Some(a[1]@.text);
            let o = args::default_options();
            let asks = |c: Subcommand, o: OptionsView|
                args::parsed(a) == Ok::<CliView, ParseErrorView>(
                    CliView { subcommand: c, options: o, input: file },
                );
            &&& starts_with(a, "c"@) || starts_with(a, "compress"@) ==> asks(
                Subcommand::Compress,
                o,
            )
            &&& starts_with(a, "d"@) || starts_with(a, "decompress"@) ==> asks(
                Subcommand::Decompress,
                o,
            )
            &&& starts_with(a, "cat"@) ==> asks(
                Subcommand::Decompress,
                OptionsView { stdout: true, ..o },
            )
            &&& starts_with(a, "tail"@) ==> asks(
                Subcommand::Decompress,
                OptionsView { stdout: true, tail: Some(1024), tail_next_nl: true, ..o },
            )
            &&& starts_with(a, "verify"@) ==> asks(Subcommand::Verify, o)
            &&& starts_with(a, "bench"@) ==> asks(
                Subcommand::Bench,
                OptionsView { bench_n: Some(5), ..o },
            )
        }),
{
    lemma_names();
    let word = a[0]@.text;
    let file = a[1]@.text;
    if plain(word) && args::subcommand(word) is Some {
        reveal(args::settled_options);
        reveal_with_fuel(args::walked, 3);
        lemma_plain(word);
        lemma_plain(file);
        let st = args::start();
        let x = State { sub: args::subcommand(word), alias: args::alias(word), ..st };
        assert(args::stepped(st, word, args::arg_at(a, 1)) == Ok::<(State, int), ParseErrorView>(
            (x, 1),
        ));
        let y = State { input: Some(file), ..x };
        assert(args::stepped(x, file, args::arg_at(a, 2)) == Ok::<(State, int), ParseErrorView>(
            (y, 1),
        ));
        assert(args::walked(a, 0, st) == args::walked(a, 1, x));
        assert(args::walked(a, 1, x) == args::walked(a, 2, y));
        assert(args::walked(a, 2, y) == Ok::<State, ParseErrorView>(y));
    }
}

/// An argument that leads to other options.
pub open spec fn leads_to(
    r: Result<(State, int), ParseErrorView>,
    st: State,
    o: OptionsView,
    n: int,
) -> bool {
    r == Ok::<(State, int), ParseErrorView>((State { options: o, ..st }, n))
}

/// An argument with two dashes is a flag.
proof fn lemma_long_step(st: State, name: Seq<char>, next: Option<ArgView>)
    requires
        name != "help"@,
    ensures
        args::stepped(st, "--"@ + name, next) == args::with_options(
            st,
            args::with_long(st.options, name, next),
        ),
{
    reveal_strlit("-");
    reveal_strlit("--");
    reveal_strlit("-h");
    reveal_strlit("--help");
    reveal_strlit("help");
    let s = "--"@ + name;
    assert(s[0] == '-' && s[1] == '-');
    assert("-"@.is_prefix_of(s));
    assert("--"@.is_prefix_of(s));
    assert(s.skip(2) =~= name);
    assert("--help"@.skip(2) =~= "help"@);
    assert("-h"@[1] == 'h');
    assert("-"@.len() == 1);
}

/// A name without a sign of equality is not divided.
proof fn lemma_no_value(name: Seq<char>)
    requires
        forall|i: int| 0 <= i < name.len() ==> name[i] != '=',
    ensures
        text::split(name, '=') is None,
{
    text::lemma_position(name, '=', name.len() as int);
}

/// A name and its value are divided at the first sign of equality.
proof fn lemma_value(name: Seq<char>, val: Seq<char>)
    requires
        forall|i: int| 0 <= i < name.len() ==> name[i] != '=',
    ensures
        text::split(name + seq!['='] + val, '=') == Some((name, val)),
{
    let s = name + seq!['='] + val;
    let n = name.len() as int;
    assert forall|j: int| 0 <= j < n implies s[j] != '=' by {
        assert(s[j] == name[j]);
    }
    text::lemma_position(s, '=', n);
    assert(s.take(n) =~= name);
    assert(s.skip(n + 1) =~= val);
}

/// Flags without a value: each sets its option, and no other.
pub proof fn law_switches(st: State, next: Option<ArgView>)
    ensures
        ({
            let o = st.options;
            let leads = |name: Seq<char>, x: OptionsView|
                leads_to(args::stepped(st, "--"@ + name, next), st, x, 1);
            &&& leads("block"@, OptionsView { block: true, ..o })
            &&& leads("stdout"@, OptionsView { stdout: true, ..o })
            &&& leads("rm"@, OptionsView { remove: true, ..o })
            &&& leads("quiet"@, OptionsView { quiet: true, ..o })
            &&& leads("verify"@, OptionsView { verify: true, ..o })
            &&& leads("index"@, OptionsView { index: true, ..o })
            &&& leads("no-index"@, OptionsView { index: false, ..o })
            &&& leads("follow"@, OptionsView { follow: true, ..o })
        }),
{
    reveal_strlit("block");
    reveal_strlit("stdout");
    reveal_strlit("rm");
    reveal_strlit("quiet");
    reveal_strlit("verify");
    reveal_strlit("help");
    reveal_strlit("index");
    reveal_strlit("no-index");
    reveal_strlit("follow");
    reveal(args::with_long);
    assert("rm"@.len() == 2 && "help"@.len() == 4 && "no-index"@.len() == 8);
    assert("block"@.len() == 5 && "quiet"@.len() == 5 && "index"@.len() == 5);
    assert("stdout"@.len() == 6 && "verify"@.len() == 6 && "follow"@.len() == 6);
    assert("block"@[0] == 'b' && "quiet"@[0] == 'q' && "index"@[0] == 'i');
    assert("stdout"@[0] == 's' && "verify"@[0] == 'v' && "follow"@[0] == 'f');
    lemma_no_value("block"@);
    lemma_no_value("stdout"@);
    lemma_no_value("rm"@);
    lemma_no_value("quiet"@);
    lemma_no_value("verify"@);
    lemma_no_value("index"@);
    lemma_no_value("no-index"@);
    lemma_no_value("follow"@);
    lemma_long_step(st, "block"@, next);
    lemma_long_step(st, "stdout"@, next);
    lemma_long_step(st, "rm"@, next);
    lemma_long_step(st, "quiet"@, next);
    lemma_long_step(st, "verify"@, next);
    lemma_long_step(st, "index"@, next);
    lemma_long_step(st, "no-index"@, next);
    lemma_long_step(st, "follow"@, next);
}

/// Flags of one letter: each sets its option, and no other.
pub proof fn law_letters(st: State, next: Option<ArgView>)
    ensures
        ({
            let o = st.options;
            let leads = |c: char, x: OptionsView|
                leads_to(args::stepped(st, seq!['-', c], next), st, x, 1);
            &&& leads('0', OptionsView { uncompressed: true, ..o })
            &&& leads('1', OptionsView { level: Some(Level::Fastest), ..o })
            &&& leads('2', OptionsView { level: Some(Level::Balanced), ..o })
            &&& leads('3', OptionsView { level: Some(Level::Smallest), ..o })
            &&& leads('c', OptionsView { stdout: true, ..o })
            &&& leads('q', OptionsView { quiet: true, ..o })
            &&& args::stepped(st, seq!['-', 'h'], next) matches Ok((x, n)) && x.help_only
                && x.options.help
        }),
{
    lemma_letter(st, '0', next);
    lemma_letter(st, '1', next);
    lemma_letter(st, '2', next);
    lemma_letter(st, '3', next);
    lemma_letter(st, 'c', next);
    lemma_letter(st, 'q', next);
    reveal_strlit("-h");
    assert(seq!['-', 'h'] =~= "-h"@);
}

proof fn lemma_letter(st: State, c: char, next: Option<ArgView>)
    requires
        c != '-' && c != 'h' && c != '=' && c != 'o',
        c <= '\u{7f}',
    ensures
        args::stepped(st, seq!['-', c], next) == args::with_options(
            st,
            match args::with_letter(st.options, c) {
                Some(x) => Ok((x, 1)),
                None => Err(ParseErrorView::UnknownFlag(seq!['-', c])),
            },
        ),
{
    reveal_strlit("-");
    reveal_strlit("--");
    reveal_strlit("-h");
    reveal_strlit("--help");
    reveal(args::with_short);
    let s = seq!['-', c];
    assert("-"@.is_prefix_of(s));
    assert(s != "--help"@ && s != "-"@) by {
        assert("--help"@.len() == 6 && "-"@.len() == 1);
    }
    assert("-h"@[1] == 'h');
    if "--"@.is_prefix_of(s) {
        assert(s[1] == "--"@[1]);
    }
    assert(s.skip(1) =~= seq![c]);
    lemma_no_value(seq![c]);
}

/// The values of flags: what options a name and a value lead to; nothing where the value is
/// one that the flag cannot have.
pub open spec fn valued(o: OptionsView, name: Seq<char>, val: Seq<char>) -> Option<OptionsView> {
    let n = size::size(val);
    let place = size::size_with_nl(val);
    let count = text::number(val, usize::MAX as int);
    let times = text::number(val, u32::MAX as int);
    if name == "output"@ {
        Some(OptionsView { output: Some(val), ..o })
    } else if name == "offset"@ && place is Ok {
        let x = place->Ok_0;
        Some(OptionsView { offset: Some(x.0), tail_next_nl: o.tail_next_nl || x.1, ..o })
    } else if name == "tail"@ && place is Ok {
        let x = place->Ok_0;
        Some(OptionsView { tail: Some(x.0), tail_next_nl: o.tail_next_nl || x.1, ..o })
    } else if name == "block-size"@ && n is Ok {
        Some(OptionsView { block_size: Some((n->Ok_0) as usize), ..o })
    } else if name == "pad"@ && n is Ok {
        Some(OptionsView { padding: Some((n->Ok_0) as u32), ..o })
    } else if (name == "threads"@ || name == "cpu"@) && count is Some && count->0 >= 1 {
        Some(OptionsView { threads: Some((count->0) as usize), ..o })
    } else if name == "bench"@ && times is Some {
        Some(OptionsView { bench_n: Some((times->0) as u32), ..o })
    } else if name == "level"@ && (val == "1"@ || val == "fastest"@) {
        Some(OptionsView { level: Some(Level::Fastest), ..o })
    } else if name == "level"@ && (val == "2"@ || val == "balanced"@) {
        Some(OptionsView { level: Some(Level::Balanced), ..o })
    } else if name == "level"@ && (val == "3"@ || val == "smallest"@) {
        Some(OptionsView { level: Some(Level::Smallest), ..o })
    } else if name == "index"@ && (val == "true"@ || val == "1"@ || val == "yes"@) {
        Some(OptionsView { index: true, ..o })
    } else if name == "index"@ && (val == "false"@ || val == "0"@ || val == "no"@) {
        Some(OptionsView { index: false, ..o })
    } else {
        None
    }
}

proof fn lemma_valued(o: OptionsView, name: Seq<char>, val: Seq<char>)
    ensures
        (match valued(o, name, val) {
            Some(x) => args::with_value(o, name, val) == Ok::<OptionsView, ParseErrorView>(x),
            None => args::with_value(o, name, val) is Err,
        }),
{
    reveal(args::with_value);
    reveal_strlit("level");
    reveal_strlit("block-size");
    reveal_strlit("pad");
    reveal_strlit("output");
    reveal_strlit("bench");
    reveal_strlit("threads");
    reveal_strlit("cpu");
    reveal_strlit("index");
    reveal_strlit("offset");
    reveal_strlit("tail");
    reveal_strlit("1");
    reveal_strlit("2");
    reveal_strlit("3");
    reveal_strlit("0");
    reveal_strlit("no");
    reveal_strlit("yes");
    reveal_strlit("true");
    reveal_strlit("false");
    reveal_strlit("fastest");
    reveal_strlit("balanced");
    reveal_strlit("smallest");
    assert("level"@.len() == 5 && "bench"@.len() == 5 && "index"@.len() == 5);
    assert("level"@[0] == 'l' && "bench"@[0] == 'b' && "index"@[0] == 'i');
    assert("pad"@.len() == 3 && "cpu"@.len() == 3 && "pad"@[0] == 'p' && "cpu"@[0] == 'c');
    assert("output"@.len() == 6 && "offset"@.len() == 6 && "output"@[1] == 'u' && "offset"@[1]
        == 'f');
    assert("threads"@.len() == 7 && "block-size"@.len() == 10 && "tail"@.len() == 4);
    assert("1"@[0] == '1' && "2"@[0] == '2' && "3"@[0] == '3' && "0"@[0] == '0');
    assert("1"@.len() == 1 && "2"@.len() == 1 && "3"@.len() == 1 && "0"@.len() == 1);
    assert("fastest"@.len() == 7 && "balanced"@.len() == 8 && "smallest"@.len() == 8);
    assert("balanced"@[0] == 'b' && "smallest"@[0] == 's');
    assert("no"@.len() == 2 && "yes"@.len() == 3 && "true"@.len() == 4 && "false"@.len() == 5);
}

/// Flags with a value: each sets its option to it, and no other, whether the value stands
/// behind a sign of equality or in the next argument. Where the value is none that it can
/// have, or there is no such flag, it is an error.
pub proof fn law_values(st: State, name: Seq<char>, val: Seq<char>, next: Option<ArgView>)
    requires
        forall|i: int| 0 <= i < name.len() ==> name[i] != '=',
    ensures
        ({
            let joined = args::stepped(st, "--"@ + (name + seq!['='] + val), next);
            let apart = args::stepped(
                st,
                "--"@ + name,
                Some(ArgView { text: val, utf8: true }),
            );
            match valued(st.options, name, val) {
                Some(o) => {
                    &&& leads_to(joined, st, o, 1)
                    &&& args::with_switch(st.options, name) is None ==> leads_to(apart, st, o, 2)
                },
                None => {
                    &&& joined is Err
                    &&& args::with_switch(st.options, name) is None ==> apart is Err
                },
            }
        }),
{
    let full = name + seq!['='] + val;
    lemma_valued(st.options, name, val);
    reveal(args::with_long);
    reveal_strlit("help");
    lemma_value(name, val);
    lemma_no_value(name);
    assert(full[name.len() as int] == '=');
    assert(full != "help"@) by {
        assert("help"@[0] == 'h' && "help"@[1] == 'e' && "help"@[2] == 'l' && "help"@[3] == 'p');
        assert("help"@.len() == 4);
    }
    lemma_long_step(st, full, next);
    if name != "help"@ {
        lemma_long_step(st, name, Some(ArgView { text: val, utf8: true }));
    }
}

/// Units: each is 1024 times the one before it, and `B` or `IB` behind it changes nothing.
pub proof fn law_units(num: Seq<char>, n: int)
    requires
        text::number(num, u64::MAX as int) == Some(n),
        n >= 0,
    ensures
        ({
            let is_size = |unit: Seq<char>, x: int|
                size::sized(num, unit) == if x <= u64::MAX {
                    Ok::<u64, &'static str>(x as u64)
                } else {
                    Err("size overflow")
                };
            let k = n * 1024;
            let m = k * 1024;
            let g = m * 1024;
            let t = g * 1024;
            &&& is_size(""@, n) && is_size("B"@, n)
            &&& is_size("K"@, k) && is_size("KB"@, k) && is_size("KIB"@, k)
            &&& is_size("M"@, m) && is_size("MB"@, m) && is_size(
                "MIB"@,
                m,
            )
            &&& is_size("G"@, g) && is_size("GB"@, g) && is_size(
                "GIB"@,
                g,
            )
            &&& is_size("T"@, t) && is_size("TB"@, t)
                && is_size("TIB"@, t)
        }),
{
    reveal_strlit("");
    reveal_strlit("B");
    reveal_strlit("K");
    reveal_strlit("KB");
    reveal_strlit("KIB");
    reveal_strlit("M");
    reveal_strlit("MB");
    reveal_strlit("MIB");
    reveal_strlit("G");
    reveal_strlit("GB");
    reveal_strlit("GIB");
    reveal_strlit("T");
    reveal_strlit("TB");
    reveal_strlit("TIB");
    assert("B"@[0] == 'B' && "K"@[0] == 'K' && "M"@[0] == 'M' && "G"@[0] == 'G' && "T"@[0] == 'T');
    assert("KB"@[0] == 'K' && "MB"@[0] == 'M' && "GB"@[0] == 'G' && "TB"@[0] == 'T');
    assert("KIB"@[0] == 'K' && "MIB"@[0] == 'M' && "GIB"@[0] == 'G' && "TIB"@[0] == 'T');
    assert(""@.len() == 0 && "B"@.len() == 1 && "K"@.len() == 1 && "M"@.len() == 1 && "G"@.len()
        == 1 && "T"@.len() == 1);
    assert("KB"@.len() == 2 && "MB"@.len() == 2 && "GB"@.len() == 2 && "TB"@.len() == 2);
    assert("KIB"@.len() == 3 && "MIB"@.len() == 3 && "GIB"@.len() == 3 && "TIB"@.len() == 3);
    assert(size::unit(""@) == Some(1u64) && size::unit("B"@) == Some(1u64));
    lemma_sized(num, n, "K"@, 0x400);
    lemma_sized(num, n, "KB"@, 0x400);
    lemma_sized(num, n, "KIB"@, 0x400);
    lemma_sized(num, n, "M"@, 0x10_0000);
    lemma_sized(num, n, "MB"@, 0x10_0000);
    lemma_sized(num, n, "MIB"@, 0x10_0000);
    lemma_sized(num, n, "G"@, 0x4000_0000);
    lemma_sized(num, n, "GB"@, 0x4000_0000);
    lemma_sized(num, n, "GIB"@, 0x4000_0000);
    lemma_sized(num, n, "T"@, 0x100_0000_0000);
    lemma_sized(num, n, "TB"@, 0x100_0000_0000);
    lemma_sized(num, n, "TIB"@, 0x100_0000_0000);
    lemma_sized(num, n, ""@, 1);
    lemma_sized(num, n, "B"@, 1);
}

proof fn lemma_sized(num: Seq<char>, n: int, unit: Seq<char>, m: u64)
    requires
        text::number(num, u64::MAX as int) == Some(n),
        size::unit(unit) == Some(m),
    ensures
        size::sized(num, unit) == if n * m <= u64::MAX {
            Ok::<u64, &'static str>((n * m) as u64)
        } else {
            Err("size overflow")
        },
{
}

} // verus!
