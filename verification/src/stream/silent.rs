//! Readers without callbacks: nothing is asked, so nothing depends on an answer.
use crate::index::IndexView;
use crate::stream::chunk::{Answer, ItemView, OptionsView};
use crate::stream::error::Error;
use crate::stream::format as layout;
use crate::stream::reader;
use crate::stream::reader::{ReaderView, Step};
use crate::stream::seek;
use crate::stream::seek::SeekFrom;
use vstd::prelude::*;

verus! {

/// There is no callback.
pub open spec fn silent(o: OptionsView) -> bool {
    forall|i: int| 0 <= i < o.callbacks.len() ==> (#[trigger] o.callbacks[i]) is None
}

/// A reader with the default options has no callback.
pub proof fn lemma_default_silent()
    ensures
        silent(reader::default_options()),
{
}

/// Without callbacks no chunk is handed to one.
proof fn lemma_silent_step(v: ReaderView, a: Seq<Answer>)
    requires
        v.wf(),
        silent(v.options),
    ensures
        (match reader::step(v.asked(), v.progress, v.rest()) {
            Step::Refused(_, _, _, _) => false,
            Step::Passed(_, _, ItemView::User(_, _)) => false,
            _ => true,
        }),
        reader::step(v.told(a).asked(), v.progress, v.rest()) == reader::step(
            v.asked(),
            v.progress,
            v.rest(),
        ),
{
    reveal(reader::step);
    let s = v.rest();
    if s.len() >= 4 {
        let len = layout::chunk_len_of(s.skip(1));
        reader::lemma_planned(v.options, v.asked().answer, v.progress, false, s[0], len);
        reader::lemma_planned(v.options, v.told(a).asked().answer, v.progress, false, s[0], len);
    }
}

/// Without callbacks, reading on asks nothing, whatever would be answered.
pub proof fn lemma_silent_filled(v: ReaderView, a: Seq<Answer>)
    requires
        v.wf(),
        silent(v.options),
    ensures
        reader::filled(v).0.chunks == v.chunks,
        reader::filled(v.told(a)) == (reader::filled(v).0.told(a), reader::filled(v).1),
    decreases v.source.len() - v.at,
{
    let w = v.told(a);
    reader::lemma_step(v);
    reader::lemma_step(w);
    lemma_silent_step(v, a);
    assert(w.rest() == v.rest());
    if v.pos == v.block.len() {
        if let Step::Passed(n, p, item) = reader::step(v.asked(), v.progress, v.rest()) {
            let x = reader::moved(v, n, p, item);
            assert(reader::moved(w, n, p, item) =~= x.told(a));
            lemma_silent_filled(x, a);
        }
    }
}

/// Without callbacks, reading to the end asks nothing, whatever would be answered.
pub proof fn lemma_silent_drained(v: ReaderView, a: Seq<Answer>)
    requires
        v.wf(),
        silent(v.options),
    ensures
        reader::drained(v).reader.chunks == v.chunks,
        reader::drained(v.told(a)).data == reader::drained(v).data,
        reader::drained(v.told(a)).err == reader::drained(v).err,
        reader::drained(v.told(a)).reader == reader::drained(v).reader.told(a),
    decreases v.source.len() - v.at,
{
    reveal(reader::drained);
    let w = v.told(a);
    reader::lemma_step(v);
    reader::lemma_step(w);
    lemma_silent_step(v, a);
    assert(w.rest() == v.rest());
    assert(w.pending() == v.pending());
    let u = v.emptied();
    assert(w.emptied() =~= u.told(a));
    if let Step::Passed(n, p, item) = reader::step(v.asked(), v.progress, v.rest()) {
        let x = reader::moved(u, n, p, item);
        assert(reader::moved(w.emptied(), n, p, item) =~= x.told(a));
        lemma_silent_drained(x, a);
    }
}

/// Without callbacks, skipping asks nothing.
proof fn lemma_silent_skipped(v: ReaderView, n: int)
    requires
        v.wf(),
        silent(v.options),
    ensures
        reader::skipped(v, n).0.chunks == v.chunks,
    decreases v.source.len() - v.at,
{
    if n > v.pending().len() {
        let m = n - v.pending().len();
        let u = v.emptied();
        reader::lemma_skip_step(v, m);
        lemma_silent_step(v, v.answers);
        match reader::skip_step(v.asked(), v.progress, v.rest(), m) {
            Step::Passed(k, p, item) => {
                if !(item is End) {
                    lemma_silent_skipped(reader::moved(u, k, p, item), m);
                }
            },
            Step::Dropped(k, d) => {
                lemma_silent_skipped(reader::passed_over(u, k, d), m - d);
            },
            _ => {},
        }
    }
}

/// Without callbacks, a seek asks nothing.
pub proof fn lemma_silent_sought(v: ReaderView, idx: IndexView, pos: SeekFrom)
    requires
        v.wf(),
        silent(v.options),
    ensures
        seek::sought(v, idx, pos).0.chunks == v.chunks,
        seek::sought(v, idx, pos).0.options == v.options,
{
    let r = ReaderView { err: None, ..v };
    let (p, e) = seek::primed(r);
    if !r.progress.header_read {
        let z = ReaderView { at: 0, ..r };
        lemma_silent_filled(z, z.answers);
        reader::lemma_drained_filled(z);
    }
    if let Ok(offset) = seek::target(r, idx, pos) {
        let n = crate::index::entry_before(idx.offsets, offset as int);
        let x = reader::jumped(p, n.compressed as int, n.uncompressed);
        lemma_silent_skipped(x, offset - n.uncompressed);
        lemma_skipped_options(x, offset - n.uncompressed);
    }
}

/// Skipping keeps the options.
proof fn lemma_skipped_options(v: ReaderView, n: int)
    requires
        v.wf(),
    ensures
        reader::skipped(v, n).0.options == v.options,
    decreases v.source.len() - v.at,
{
    if n > v.pending().len() {
        let m = n - v.pending().len();
        let u = v.emptied();
        reader::lemma_skip_step(v, m);
        match reader::skip_step(v.asked(), v.progress, v.rest(), m) {
            Step::Passed(k, p, item) => {
                if !(item is End) {
                    lemma_skipped_options(reader::moved(u, k, p, item), m);
                }
            },
            Step::Dropped(k, d) => {
                lemma_skipped_options(reader::passed_over(u, k, d), m - d);
            },
            _ => {},
        }
    }
}

/// Where no chunk was handed to a callback, no answer was given.
pub proof fn lemma_nothing_answered(v: ReaderView, w: ReaderView)
    requires
        v.settled(),
        w.settled(),
        v.answers.is_prefix_of(w.answers),
        w.chunks == v.chunks,
    ensures
        v.told(w.answers) == v,
{
    assert(w.answers =~= v.answers);
    assert(v.told(w.answers) =~= v);
}

/// Without callbacks, a reader answers for itself: reading on gives what it gives.
pub proof fn lemma_silent_fill(v: ReaderView, w: ReaderView, f: Result<bool, Error>)
    requires
        v.wf(),
        v.settled(),
        w.settled(),
        silent(v.options),
        v.answers.is_prefix_of(w.answers),
        (w, f) == reader::filled(v.told(w.answers)),
    ensures
        (w, f) == reader::filled(v),
        silent(w.options),
{
    let x = v.told(w.answers);
    lemma_silent_filled(x, x.answers);
    lemma_nothing_answered(v, w);
    reader::lemma_drained_filled(v);
}

} // verus!
