//! What holds of the tool as a whole.
use crate::index;
use crate::index::IndexView;
use crate::mz::args::OptionsView;
use crate::mz::compress;
use crate::mz::decompress;
use crate::mz::error as mz_error;
use crate::mz::path;
use crate::stream::error::Error;
use crate::stream::output;
use crate::stream::output::{Closing, OutputView};
use crate::stream::random_access;
use crate::stream::reader;
use crate::stream::reader::ReaderView;
use crate::stream::roundtrip;
use crate::stream::seek;
use crate::stream::seek::SeekFrom;
use crate::stream::seeking;
use vstd::math;
use vstd::prelude::*;
use vstd::string::*;

verus! {

proof fn lemma_name_start_kept(p: Seq<char>, ext: Seq<char>)
    requires
        forall|i: int| 0 <= i < ext.len() ==> ext[i] != '/',
    ensures
        path::name_start(p + ext) == path::name_start(p),
    decreases ext.len(),
{
    if ext.len() == 0 {
        assert(p + ext =~= p);
    } else {
        let e = ext.drop_last();
        assert((p + ext).drop_last() =~= p + e);
        assert((p + ext).last() == ext[ext.len() - 1]);
        assert forall|i: int| 0 <= i < e.len() implies e[i] != '/' by {
            assert(e[i] == ext[i]);
        }
        lemma_name_start_kept(p, e);
    }
}

proof fn lemma_name_start_bound(p: Seq<char>)
    ensures
        0 <= path::name_start(p) <= p.len(),
    decreases p.len(),
{
    if p.len() > 0 && p.last() != '/' {
        lemma_name_start_bound(p.drop_last());
    }
}

proof fn lemma_last_dot_kept(name: Seq<char>, ext: Seq<char>)
    requires
        forall|i: int| 0 <= i < ext.len() ==> ext[i] != '.',
    ensures
        path::last_dot(name + "."@ + ext) == Some(name.len() as int),
    decreases ext.len(),
{
    reveal_strlit(".");
    let s = name + "."@ + ext;
    if ext.len() == 0 {
        assert(s.last() == '.');
    } else {
        let e = ext.drop_last();
        assert(s.drop_last() =~= name + "."@ + e);
        assert(s.last() == ext[ext.len() - 1]);
        assert forall|i: int| 0 <= i < e.len() implies e[i] != '.' by {
            assert(e[i] == ext[i]);
        }
        lemma_last_dot_kept(name, e);
    }
}

/// What stands behind an extension that was added is what was there.
proof fn lemma_added_extension(p: Seq<char>, ext: Seq<char>)
    requires
        path::trimmed(p) == p,
        path::file_name(p) is Some,
        ext.len() > 0,
        forall|i: int| 0 <= i < ext.len() ==> ext[i] != '/' && ext[i] != '.',
    ensures
        path::extension(p + "."@ + ext) == Some(ext),
        path::without_extension(p + "."@ + ext) == p,
{
    reveal_strlit(".");
    reveal_strlit("..");
    let s = p + "."@ + ext;
    let k = path::name_start(p);
    let name = p.skip(k);
    lemma_name_start_bound(p);
    assert(s.last() == ext[ext.len() - 1]);
    assert(path::trimmed(s) == s);
    let tail = "."@ + ext;
    assert(s =~= p + tail);
    assert forall|i: int| 0 <= i < tail.len() implies tail[i] != '/' by {
        if i > 0 {
            assert(tail[i] == ext[i - 1]);
        }
    }
    lemma_name_start_kept(p, tail);
    let full = s.skip(k);
    assert(full =~= name + "."@ + ext);
    assert(full.len() >= 3);
    assert(full != "."@ && full != ".."@) by {
        assert(full.len() >= name.len() + 2);
    }
    lemma_last_dot_kept(name, ext);
    assert(full.skip(name.len() as int + 1) =~= ext);
    assert(s.take(s.len() - ext.len() - 1) =~= p);
}

/// A file that was compressed next to itself is decompressed to where it was. The path is one
/// of a file, not of a directory, and ends in its name.
pub proof fn law_paths_return(p: Seq<char>, c: OptionsView, d: OptionsView, single: bool)
    requires
        path::trimmed(p) == p,
        path::file_name(p) is Some,
        !path::is_stdio(p),
        !c.stdout && c.output is None,
        !d.stdout && d.output is None && !d.verify,
    ensures
        ({
            let ext = if single {
                "mzb"@
            } else {
                "mz"@
            };
            let q = compress::dest(p, c, ext);
            &&& path::is_compressed(q)
            &&& decompress::dest(q, d) == p
            &&& single <==> path::extension(q) == Some("mzb"@)
        }),
{
    reveal_strlit("mz");
    reveal_strlit("mzb");
    reveal_strlit("-");
    reveal_strlit(".");
    let ext = if single {
        "mzb"@
    } else {
        "mz"@
    };
    let q = p + "."@ + ext;
    lemma_added_extension(p, ext);
    assert(path::trimmed(q) == q);
    assert("mz"@.len() == 2 && "mzb"@.len() == 3);
}

proof fn lemma_part_bounds(offset: Option<u64>, tail: Option<u64>, total: u64)
    requires
        offset is Some || tail is Some,
        offset matches Some(x) ==> x <= total,
    ensures
        ({
            let (from, len) = decompress::part(offset, tail, total);
            0 <= from <= from + len <= total
        }),
{
}

proof fn lemma_read_part(v: ReaderView, data: Seq<u8>, from: int, len: int, total: u64)
    requires
        0 <= from <= from + len <= data.len(),
        reader::drained(v).data == data.skip(from),
        reader::drained(v).err is None,
    ensures
        decompress::read_part(v, false, len, total) == Ok::<(Seq<u8>, u64), mz_error::Error>(
            (data.subrange(from, from + len), total),
        ),
{
    assert(data.skip(from).take(len) =~= data.subrange(from, from + len));
}

proof fn lemma_sizes(w: OutputView, c: Closing)
    requires
        random_access::moderate(w),
    ensures
        random_access::final_index(w, c).total_uncompressed == Some(
            output::data_of(w.frames).len() as u64,
        ),
{
}

/// The part that is wanted of `total` bytes. Without an offset it is the end of them: as many
/// as were asked for, or all where there are not so many. With one it starts there, and has
/// as many bytes as were asked for, or all that are left where there are not so many.
pub proof fn law_part(offset: Option<u64>, tail: Option<u64>, total: u64)
    requires
        offset is Some || tail is Some,
    ensures
        ({
            let (from, len) = decompress::part(offset, tail, total);
            &&& 0 <= from && 0 <= len
            &&& offset is None ==> from + len == total
            &&& offset is None ==> (tail matches Some(t) ==> len == math::min(
                t as int,
                total as int,
            ))
            &&& offset matches Some(x) ==> from == x
            &&& offset matches Some(x) ==> (x >= total ==> len == 0)
            &&& offset matches Some(x) ==> (x < total && tail is None ==> from + len == total)
            &&& offset matches Some(x) ==> (tail matches Some(t) ==> (x < total ==> len
                == math::min(t as int, total - x)))
        }),
{
}

/// The bytes of `data` that are wanted: the last `tail`, those from `offset` on, or the first
/// `tail` of those.
pub open spec fn wanted(data: Seq<u8>, offset: Option<u64>, tail: Option<u64>) -> Seq<u8> {
    match (offset, tail) {
        (None, None) => data,
        (None, Some(t)) => data.skip(data.len() - math::min(t as int, data.len() as int)),
        (Some(x), None) => data.skip(x as int),
        (Some(x), Some(t)) => data.skip(x as int).take(
            math::min(t as int, data.len() - x),
        ),
    }
}

/// The part of a stream that is wanted is that part of its data: with an offset and no size
/// all from there on, with both so many bytes from there on, with a size alone so many bytes
/// of the end. From the next line on, it is what stands behind the first line end in that
/// and behind it, and no more bytes than that has. The stream ends in its index, and is small
/// enough that no sum over its offsets overflows.
pub proof fn law_part_of_data(w: OutputView, c: Closing, o: OptionsView)
    requires
        w.wf(),
        w.started,
        c.wf(),
        c.append_index && c.build_index,
        roundtrip::readable(reader::default_options(), w),
        random_access::moderate(w),
        o.offset is Some || o.tail is Some,
        o.offset matches Some(x) ==> x <= output::data_of(w.frames).len(),
    ensures
        ({
            let data = output::data_of(w.frames);
            let size = data.len() as u64;
            let part = wanted(data, o.offset, o.tail);
            let got = |x: Seq<u8>| decompress::extracts(w.closed(c), o, Ok((x, size)));
            &&& !o.tail_next_nl ==> got(part)
            &&& !o.tail_next_nl && o.offset is None ==> (o.tail matches Some(t) ==> part
                == data.skip(data.len() - math::min(t as int, data.len() as int)))
            &&& o.tail_next_nl ==> forall|k: int, from: int|
                #![trigger data[from + k]]
                ({
                    &&& 0 <= from <= from + k < data.len()
                    &&& o.offset matches Some(x) ==> from == x
                    &&& o.offset is None ==> from == data.len() - part.len()
                    &&& data[from + k] == 10
                    &&& forall|j: int| from <= j < from + k ==> data[j] != 10
                }) ==> got(
                    data.skip(from + k + 1).take(
                        math::min(part.len() as int, data.len() - from - k - 1),
                    ),
                )
            &&& o.tail_next_nl ==> forall|from: int|
                #![trigger data.skip(from)]
                ({
                    &&& 0 <= from <= data.len()
                    &&& o.offset matches Some(x) ==> from == x
                    &&& o.offset is None ==> from == data.len() - part.len()
                    &&& forall|j: int| from <= j < data.len() ==> data[j] != 10
                }) ==> got(Seq::empty())
        }),
{
    let data = output::data_of(w.frames);
    let total = data.len() as u64;
    let source = w.closed(c);
    let start = reader::default_options();
    let (from, len) = decompress::part(o.offset, o.tail, total);
    let idx = random_access::final_index(w, c);
    lemma_part_bounds(o.offset, o.tail, total);
    law_part(o.offset, o.tail, total);
    assert(seek::index_from(Seq::empty(), source) == Ok::<IndexView, index::Error>(idx)) by {
        random_access::law_appended_index_loads(w, c);
    }
    let got = seek::sought(reader::fresh(start, source), idx, SeekFrom::Start(from as u64));
    assert(got.1 is Ok && reader::drained(got.0).data == data.skip(from) && reader::drained(
        got.0,
    ).err is None) by {
        seeking::law_random_access(start, w, c, from as u64);
    }
    lemma_sizes(w, c);
    lemma_extracted(source, o, idx, total, got);
    let part = wanted(data, o.offset, o.tail);
    assert(part =~= data.subrange(from, from + len));
    if !o.tail_next_nl {
        lemma_read_part(got.0, data, from, len, total);
    } else {
        assert forall|k: int, f: int|
            #![trigger data[f + k]]
            ({
                &&& 0 <= f <= f + k < data.len()
                &&& o.offset matches Some(x) ==> f == x
                &&& o.offset is None ==> f == data.len() - part.len()
                &&& data[f + k] == 10
                &&& forall|j: int| f <= j < f + k ==> data[j] != 10
            }) implies decompress::extracts(
            source,
            o,
            Ok(
                (
                    data.skip(f + k + 1).take(
                        math::min(part.len() as int, data.len() - f - k - 1),
                    ),
                    total,
                ),
            ),
        ) by {
            lemma_read_line(got.0, data, from, len, total, k);
        }
        assert forall|f: int|
            #![trigger data.skip(f)]
            ({
                &&& 0 <= f <= data.len()
                &&& o.offset matches Some(x) ==> f == x
                &&& o.offset is None ==> f == data.len() - part.len()
                &&& forall|j: int| f <= j < data.len() ==> data[j] != 10
            }) implies decompress::extracts(source, o, Ok((Seq::empty(), total))) by {
            lemma_read_no_line(got.0, data, from, len, total);
        }
    }
}

/// Where the first line end is `k` bytes behind the start of a part, it is read from there.
proof fn lemma_read_line(v: ReaderView, data: Seq<u8>, from: int, len: int, total: u64, k: int)
    requires
        0 <= from <= from + k < data.len(),
        0 <= len,
        data[from + k] == 10,
        forall|j: int| from <= j < from + k ==> data[j] != 10,
        reader::drained(v).data == data.skip(from),
        reader::drained(v).err is None,
    ensures
        decompress::read_part(v, true, len, total) == Ok::<(Seq<u8>, u64), mz_error::Error>(
            (
                data.skip(from + k + 1).take(math::min(len, data.len() - from - k - 1)),
                total,
            ),
        ),
{
    let d = data.skip(from);
    assert forall|j: int| 0 <= j < k implies d[j] != 10 by {
        assert(d[j] == data[from + j]);
    }
    decompress::lemma_behind_line(d, k);
    assert(d[k] == data[from + k]);
    assert(d.skip(k + 1) =~= data.skip(from + k + 1));
    let rest = data.skip(from + k + 1);
    assert(rest.take(rest.len() as int) =~= rest);
}

/// Where no line ends, nothing is read.
proof fn lemma_read_no_line(v: ReaderView, data: Seq<u8>, from: int, len: int, total: u64)
    requires
        0 <= from <= data.len(),
        forall|j: int| from <= j < data.len() ==> data[j] != 10,
        reader::drained(v).data == data.skip(from),
        reader::drained(v).err is None,
    ensures
        decompress::read_part(v, true, len, total) == Ok::<(Seq<u8>, u64), mz_error::Error>(
            (Seq::empty(), total),
        ),
{
    let d = data.skip(from);
    assert forall|j: int| 0 <= j < d.len() implies d[j] != 10 by {
        assert(d[j] == data[from + j]);
    }
    decompress::lemma_behind_line(d, d.len() as int);
    assert(d.skip(d.len() as int).len() == 0);
}

proof fn lemma_extracted(
    source: Seq<u8>,
    o: OptionsView,
    idx: IndexView,
    total: u64,
    got: (ReaderView, Result<u64, Error>),
)
    requires
        seek::index_from(Seq::empty(), source) == Ok::<IndexView, index::Error>(idx),
        idx.total_uncompressed == Some(total),
        got.1 is Ok,
        ({
            let start = reader::fresh(reader::default_options(), source);
            let from = decompress::part(o.offset, o.tail, total).0;
            got == seek::sought(start, idx, SeekFrom::Start(from as u64))
        }),
    ensures
        decompress::extracts(
            source,
            o,
            decompress::read_part(
                got.0,
                o.tail_next_nl,
                decompress::part(o.offset, o.tail, total).1,
                total,
            ),
        ),
{
}

} // verus!
