//! What the options of the tool come to: where output goes, what is done, and how.
use crate::block::Level;
use crate::decimal;
use crate::mz::args;
use crate::mz::args::OptionsView;
use crate::mz::bench;
use crate::mz::bench::BenchMode;
use crate::mz::compress;
use crate::mz::compress::CompressJob;
use crate::mz::decompress;
use crate::mz::decompress::DecompressJob;
use crate::mz::path;
use crate::mz::size;
use crate::mz::text;
use crate::mz::verify;
use crate::stream::mt_writer;
use crate::stream::writer::WriterOptions;
use vstd::prelude::*;
use vstd::string::*;

verus! {

/// Where output goes. Standard output, where it is asked for, comes before a path that is
/// given, and that before the path of the input; where that is standard input, standard
/// output. A compressed file has a dot and an extension more; a decompressed one has the
/// extension of a compressed file no more, or `.out` more where it has none. Where a file is
/// only checked, nothing is written.
pub proof fn law_destinations(input: Seq<char>, o: OptionsView, ext: Seq<char>)
    ensures
        ({
            let c = compress::dest(input, o, ext);
            let d = decompress::dest(input, o);
            let chosen = o.stdout || o.output is Some;
            &&& o.stdout ==> c == "-"@ && (o.verify || d == "-"@)
            &&& o.output matches Some(out) ==> (!o.stdout ==> c == out && (o.verify || d == out))
            &&& !chosen && path::is_stdio(input) ==> c == "-"@ && (o.verify || d == "-"@)
            &&& !chosen && !path::is_stdio(input) ==> c == input + seq!['.'] + ext
            &&& !chosen && !path::is_stdio(input) && !o.verify ==> {
                &&& path::extension(input) == Some("mz"@) || path::extension(input) == Some("mzb"@)
                    ==> d == path::without_extension(input)
                &&& path::extension(input) != Some("mz"@) && path::extension(input) != Some("mzb"@)
                    ==> d == input + seq!['.', 'o', 'u', 't']
            }
            &&& o.verify ==> d == "(verify)"@
        }),
{
    reveal_strlit(".");
    reveal_strlit(".out");
    assert("."@ =~= seq!['.']);
    assert(".out"@ =~= seq!['.', 'o', 'u', 't']);
}

/// What is done. A number of repetitions asks for a benchmark; a flag, or to decompress the
/// name of the file, for a single block; and else a stream is made or read. To decompress,
/// waiting for more comes before a part, and that before all of it; where a stream is only
/// checked, there is one worker.
pub proof fn law_jobs(o: OptionsView, input: Seq<char>, threads: usize)
    ensures
        ({
            let c = compress::job(o, threads);
            let d = decompress::job(o, input, threads);
            let single = o.block || path::extension(input) == Some("mzb"@);
            let part = o.offset is Some || o.tail is Some;
            &&& o.bench_n is Some <==> c is Bench
            &&& o.bench_n is Some <==> d is Bench
            &&& o.bench_n is None ==> (o.block <==> c is Block)
            &&& o.bench_n is None ==> (single <==> d is Block)
            &&& c matches CompressJob::Stream(n) ==> n == threads
            &&& o.bench_n is None && !single ==> (o.follow <==> d is Follow)
            &&& o.bench_n is None && !single && !o.follow ==> (part <==> d is Seek)
            &&& d matches DecompressJob::Stream(n) ==> !part && n == if o.verify {
                1
            } else {
                threads
            }
            &&& verify::is_block(o, input) <==> single
        }),
{
}

/// How a stream is made: by the options given; else at the balanced level, in blocks of
/// 8 MiB, with an index at its end and without padding.
pub proof fn law_stream_options(o: OptionsView)
    ensures
        ({
            let s = compress::stream_options(o);
            &&& s.block_size == match o.block_size {
                Some(n) => n,
                None => 8388608,
            }
            &&& s.uncompressed == o.uncompressed
            &&& !o.uncompressed ==> s.level == match o.level {
                Some(l) => l,
                None => Level::Balanced,
            }
            &&& o.padding matches Some(n) ==> s.padding == n || (n <= 1 && s.padding == 0)
            &&& o.padding is None ==> s.padding == 0
            &&& s.append_index == o.index
            &&& s.generate_index == o.index
            &&& !s.flush_on_write
            &&& !o.uncompressed ==> compress::block_level(o) == s.level
            &&& o.uncompressed ==> compress::block_level(o) == Level::Fastest
        }),
{
}

/// How a benchmark is done: as often as was asked for, or five times; compressing, unless
/// only decompressing is measured; decompressing, unless only compressing is measured and
/// nothing is checked.
pub proof fn law_plan(o: OptionsView, mode: BenchMode, threads: usize)
    ensures
        ({
            let p = bench::planned(o, mode, threads);
            let s = bench::stream_options(p);
            &&& p.iterations == match o.bench_n {
                Some(n) => n,
                None => 5,
            }
            &&& p.mode == mode && p.threads == threads && p.verify == o.verify
            &&& p.encode <==> (mode is Compress || mode is Both)
            &&& p.decode <==> (mode is Decompress || mode is Both || o.verify)
            &&& p.level == compress::block_level(o)
            &&& p.block_size == compress::stream_options(o).block_size
            &&& s.level == p.level && s.block_size == p.block_size
            &&& !s.uncompressed && s.padding == 0 && !s.append_index
        }),
{
}

proof fn lemma_decimal(n: nat)
    ensures
        ({
            let d = decimal::decimal(n);
            &&& d.len() > 0
            &&& text::digits_value(d) == n
            &&& forall|i: int| 0 <= i < d.len() ==> text::is_digit(#[trigger] d[i])
            &&& d[0] != '+'
        }),
    decreases n,
{
    let d = decimal::decimal(n);
    if n < 10 {
        assert(d.drop_last() =~= Seq::<char>::empty());
        assert(text::digits_value(Seq::<char>::empty()) == 0);
    } else {
        let e = decimal::decimal(n / 10);
        lemma_decimal(n / 10);
        assert(d.drop_last() =~= e);
        assert(d[0] == e[0]);
        assert forall|i: int| 0 <= i < d.len() implies text::is_digit(#[trigger] d[i]) by {
            if i < e.len() {
                assert(d[i] == e[i]);
            }
        }
    }
}

/// A number that is written in decimal is read back.
pub proof fn law_numbers(n: nat, max: int)
    ensures
        n <= max ==> text::number(decimal::decimal(n), max) == Some(n as int),
        n > max ==> text::number(decimal::decimal(n), max) is None,
{
    lemma_decimal(n);
}

/// A size is a number and its unit, which may be in small letters. With `+nl` behind it, it
/// is the same size.
pub proof fn law_size_text(n: nat, unit: Seq<char>)
    requires
        forall|i: int| 0 <= i < unit.len() ==> size::is_ascii_letter(#[trigger] unit[i]),
    ensures
        ({
            let num = decimal::decimal(n);
            let s = num + unit;
            let capital = unit.map_values(|c: char| size::ascii_upper(c));
            &&& size::ascii_size(s) == size::sized(num, capital)
            &&& size::size_with_nl(s + "+nl"@) == match size::size(s) {
                Ok(x) => Ok::<(u64, bool), &'static str>((x, true)),
                Err(e) => Err(e),
            }
        }),
{
    reveal_strlit("+nl");
    lemma_decimal(n);
    let num = decimal::decimal(n);
    let s = num + unit;
    let k = num.len() as int;
    assert(s[0] == num[0] && text::is_digit(num[0]));
    assert(!size::is_space(s[0]));
    assert(size::trimmed_start(s) == s);
    let l = s.last();
    assert(!size::is_space(l)) by {
        if unit.len() > 0 {
            assert(l == unit[unit.len() - 1]);
        } else {
            assert(l == num[k - 1]);
        }
    }
    assert(size::trimmed_end(s) == s);
    let u = s.map_values(|c: char| size::ascii_upper(c));
    let letter = |c: char| size::is_ascii_letter(c);
    assert forall|j: int| 0 <= j < k implies !letter(#[trigger] u[j]) by {
        assert(s[j] == num[j] && text::is_digit(num[j]));
    }
    if unit.len() > 0 {
        assert(s[k] == unit[0]);
        assert(size::is_ascii_letter(unit[0]));
        lemma_capital(unit[0]);
        assert(letter(u[k]));
    }
    size::lemma_split_unit(u, letter, k);
    assert(u.take(k) =~= num) by {
        assert forall|j: int| 0 <= j < k implies u[j] == num[j] by {
            assert(s[j] == num[j] && text::is_digit(num[j]));
        }
    }
    assert(u.skip(k) =~= unit.map_values(|c: char| size::ascii_upper(c)));
    let t = s + "+nl"@;
    assert(t.skip(t.len() - 3) =~= "+nl"@);
    assert("+nl"@.is_suffix_of(t));
    assert(t.take(t.len() - 3) =~= s);
}

/// A letter has a capital letter.
proof fn lemma_capital(c: char)
    requires
        size::is_ascii_letter(c),
    ensures
        size::is_ascii_letter(size::ascii_upper(c)),
{
}

/// What is left of data without its start: nothing, where there is not so much; else what
/// stands behind so many bytes, or behind the first line end from there on.
pub proof fn law_cut(skip: int, data: Seq<u8>, k: int)
    requires
        0 <= skip,
    ensures
        skip >= data.len() ==> decompress::cut(skip, false, data) == Seq::<u8>::empty()
            && decompress::cut(skip, true, data) == Seq::<u8>::empty(),
        skip < data.len() ==> decompress::cut(skip, false, data) == data.skip(skip),
        skip <= k < data.len() && data[k] == 10 && (forall|j: int|
            skip <= j < k ==> data[j] != 10) ==> decompress::cut(skip, true, data) == data.skip(
            k + 1,
        ),
        (forall|j: int| skip <= j < data.len() ==> data[j] != 10) ==> decompress::cut(
            skip,
            true,
            data,
        ) == Seq::<u8>::empty(),
{
    if skip < data.len() {
        let d = data.skip(skip);
        if skip <= k < data.len() && data[k] == 10 && (forall|j: int|
            skip <= j < k ==> data[j] != 10) {
            assert forall|j: int| 0 <= j < k - skip implies d[j] != 10 by {
                assert(d[j] == data[skip + j]);
            }
            decompress::lemma_behind_line(d, k - skip);
            assert(d[k - skip] == data[k]);
            assert(d.skip(k - skip + 1) =~= data.skip(k + 1));
        }
        if forall|j: int| skip <= j < data.len() ==> data[j] != 10 {
            assert forall|j: int| 0 <= j < d.len() implies d[j] != 10 by {
                assert(d[j] == data[skip + j]);
            }
            decompress::lemma_behind_line(d, d.len() as int);
            assert(d.skip(d.len() as int).len() == 0);
        }
    }
}

/// Options of a stream are in order where blocks have 4 KiB to 8 MiB, padding is to no more
/// than 8 MiB, and there is a worker.
pub proof fn law_stream_limits(o: WriterOptions, workers: Option<usize>)
    ensures
        mt_writer::mistake(o, workers) is None <==> {
            &&& 4096 <= o.block_size <= 8388608
            &&& o.padding <= 8388608
            &&& workers != Some(0usize)
        },
{
}

/// What holds where no flag is given: nothing is asked for but an index.
pub proof fn law_default_options()
    ensures
        ({
            let o = args::default_options();
            &&& o.level is None && o.block_size is None && o.padding is None && o.output is None
            &&& o.bench_n is None && o.threads is None && o.offset is None && o.tail is None
            &&& !o.uncompressed && !o.block && !o.stdout && !o.remove && !o.quiet && !o.verify
            &&& !o.tail_next_nl && !o.follow && !o.help
            &&& o.index
        }),
{
}

} // verus!
