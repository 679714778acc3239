//! The link-enrichment scheduler.
//!
//! A snapshot of the fixtures still lacking stream links is partitioned into
//! one contiguous chunk per worker; each worker walks its chunk in order,
//! navigation happens outside, and every decision — which URL is next, what a
//! page's anchor candidates amount to, how the store is updated, when a
//! worker gives up — is made and verified here. Progress is a single counter
//! that only ever counts processed events.

use vstd::arithmetic::div_mod::lemma_fundamental_div_mod;
use vstd::arithmetic::mul::lemma_mul_inequality;
use vstd::prelude::*;

use crate::models::{Stream, StreamView};
use crate::store::{EventStore, has_empty_link, with_link};
use crate::text::{
    chars_to_string, contains_sub, join_chars, lemma_filter_elem, lemma_split_join_inverse,
    spec_contains_sub, spec_join, spec_split, str_to_chars,
};

verus! {

/// What percent-decoding a URL yields, when the decoded bytes are UTF-8; a
/// function of the text alone.
pub uninterp spec fn url_decoded(s: Seq<char>) -> Option<Seq<char>>;

/// Relies on `urlencoding::decode`: decoding is a function of the text, a
/// text without `%` decodes to itself, and decoding fails only when the
/// decoded bytes are not UTF-8.
#[verifier::external_body]
fn decode_url(s: &str) -> (r: Option<String>)
    ensures
        (match r {
            Some(d) => url_decoded(s@) == Some(d@),
            None => url_decoded(s@) is None,
        }),
        !s@.contains('%') ==> r is Some,
{
    match urlencoding::decode(s) {
        Ok(d) => Some(d.into_owned()),
        Err(_) => None,
    }
}

/// The stored link value a page's anchor candidates amount to: the entries
/// carrying `//`, joined by commas. No surviving entry leaves the empty
/// string, so such an event stays un-enriched.
pub open spec fn links_of(cands: Seq<Seq<char>>) -> Seq<char> {
    spec_join(cands.filter(|c: Seq<char>| spec_contains_sub(c, "//"@)), ',')
}

/// Joins the surviving candidates; zero survivors give the empty value.
pub fn stream_links_value(cands: &Vec<String>) -> (r: String)
    ensures
        r@ == links_of(cands.deep_view()),
        cands.deep_view().filter(|c: Seq<char>| spec_contains_sub(c, "//"@)).len() == 0 ==> r@
            =~= Seq::<char>::empty(),
{
    let ghost pred = |c: Seq<char>| spec_contains_sub(c, "//"@);
    let pat = str_to_chars("//");
    let mut kept: Vec<Vec<char>> = Vec::new();
    let mut i: usize = 0;
    proof {
        reveal(Seq::filter);
        assert(cands.deep_view().take(0) =~= Seq::<Seq<char>>::empty());
        assert(kept.deep_view() =~= cands.deep_view().take(0).filter(pred));
    }
    while i < cands.len()
        invariant
            i <= cands@.len(),
            cands.deep_view().len() == cands@.len(),
            pat@ == "//"@,
            pred == (|c: Seq<char>| spec_contains_sub(c, "//"@)),
            kept.deep_view() == cands.deep_view().take(i as int).filter(pred),
        decreases cands@.len() - i,
    {
        let ghost kept_old = kept.deep_view();
        let cs = str_to_chars(cands[i].as_str());
        proof {
            assert(cands.deep_view()[i as int] == cands@[i as int]@);
        }
        if contains_sub(&cs, &pat) {
            kept.push(cs);
        }
        proof {
            reveal(Seq::filter);
            let dv = cands.deep_view();
            assert(dv.take(i + 1).drop_last() =~= dv.take(i as int));
            assert(dv.take(i + 1).last() == dv[i as int]);
            if pred(dv[i as int]) {
                assert(kept.deep_view() =~~= kept_old.push(dv[i as int]));
            } else {
                assert(kept.deep_view() =~~= kept_old);
            }
        }
        i = i + 1;
    }
    proof {
        assert(cands.deep_view().take(cands.deep_view().len() as int) =~= cands.deep_view());
    }
    let joined = join_chars(&kept, ',');
    chars_to_string(&joined)
}

/// A written link value splits back into exactly the surviving candidates,
/// and none of those entries is empty: a stored value is either the empty
/// string or a comma-joined list of non-empty entries. Candidates holding a
/// comma would fuse with their neighbours, so they are excluded here.
pub proof fn lemma_links_round_trip(cands: Seq<Seq<char>>)
    requires
        forall|i: int| 0 <= i < cands.len() ==> !(#[trigger] cands[i]).contains(','),
        cands.filter(|c: Seq<char>| spec_contains_sub(c, "//"@)).len() >= 1,
    ensures
        spec_split(links_of(cands), ',') == cands.filter(
            |c: Seq<char>| spec_contains_sub(c, "//"@),
        ),
        forall|i: int|
            0 <= i < spec_split(links_of(cands), ',').len() ==> (#[trigger] spec_split(
                links_of(cands),
                ',',
            )[i]).len() > 0,
{
    let pred = |c: Seq<char>| spec_contains_sub(c, "//"@);
    let kept = cands.filter(pred);
    assert forall|i: int| 0 <= i < kept.len() implies !(#[trigger] kept[i]).contains(',') by {
        lemma_filter_elem(cands, pred, i);
        let j = choose|j: int| 0 <= j < cands.len() && (#[trigger] cands[j]) == kept[i];
    }
    lemma_split_join_inverse(kept, ',');
    assert forall|i: int| 0 <= i < kept.len() implies (#[trigger] kept[i]).len() > 0 by {
        cands.lemma_filter_pred(pred, i);
        reveal_strlit("//");
    }
}

/// What the navigation layer reports for one event page.
pub enum PageOutcome {
    /// The links table was found; these are its anchors' candidate values.
    Links(Vec<String>),
    /// No links table on the page: not an error, the event simply stays
    /// un-enriched.
    NoLinksTable,
    /// Navigation or the wait for content failed.
    FetchFailed,
}

/// The events of worker `w`'s chunk: a contiguous slice of the snapshot.
pub open spec fn chunk_slice(snapshot: Seq<StreamView>, size: int, w: int) -> Seq<StreamView> {
    snapshot.subrange(w * size, (w + 1) * size)
}

/// Splits the snapshot into `n` contiguous chunks of `len / n` events each;
/// the remainder after the last full chunk is left unassigned.
pub fn partition_chunks(events: &Vec<Stream>, n: usize) -> (r: Vec<Vec<Stream>>)
    requires
        n >= 1,
        events@.len() as int / (n as int) >= 1,
    ensures
        r@.len() == n,
        forall|w: int|
            0 <= w < n ==> (#[trigger] r@[w])@.map_values(|e: Stream| e@) == chunk_slice(
                events@.map_values(|e: Stream| e@),
                events@.len() as int / (n as int),
                w,
            ),
{
    let size = events.len() / n;
    proof {
        lemma_fundamental_div_mod(events@.len() as int, n as int);
    }
    let mut chunks: Vec<Vec<Stream>> = Vec::new();
    let mut w: usize = 0;
    while w < n
        invariant
            w <= n,
            n >= 1,
            chunks@.len() == w,
            size == events@.len() as int / (n as int),
            (n as int) * (size as int) <= events@.len(),
            events@.len() <= usize::MAX,
            forall|ww: int|
                0 <= ww < w ==> (#[trigger] chunks@[ww])@.map_values(|e: Stream| e@) == chunk_slice(
                    events@.map_values(|e: Stream| e@),
                    size as int,
                    ww,
                ),
        decreases n - w,
    {
        proof {
            lemma_mul_inequality(w as int, n as int, size as int);
            lemma_mul_inequality(w as int + 1, n as int, size as int);
            vstd::arithmetic::mul::lemma_mul_is_distributive_add(size as int, w as int, 1);
            vstd::arithmetic::mul::lemma_mul_is_commutative(size as int, w as int + 1);
            vstd::arithmetic::mul::lemma_mul_is_commutative(size as int, w as int);
            vstd::arithmetic::mul::lemma_mul_nonnegative(w as int, size as int);
            assert((w as int + 1) * (size as int) == (w as int) * (size as int) + (size as int));
        }
        let base = w * size;
        let mut chunk: Vec<Stream> = Vec::new();
        let mut j: usize = 0;
        while j < size
            invariant
                j <= size,
                base == (w as int) * (size as int),
                base + size <= events@.len(),
                events@.len() <= usize::MAX,
                chunk@.len() == j,
                forall|k: int| 0 <= k < j ==> (#[trigger] chunk@[k])@ == events@[base + k]@,
            decreases size - j,
        {
            chunk.push(events[base + j].clone());
            j = j + 1;
        }
        proof {
            let sv = events@.map_values(|e: Stream| e@);
            assert(chunk@.map_values(|e: Stream| e@) =~= chunk_slice(sv, size as int, w as int));
        }
        chunks.push(chunk);
        w = w + 1;
    }
    chunks
}

/// The events a list of chunk slots still holds from position `i` on.
pub open spec fn rem_sum(chunks: Seq<Seq<StreamView>>, pos: Seq<usize>, i: int) -> int
    decreases chunks.len() - i,
{
    if i < 0 || i >= chunks.len() {
        0
    } else {
        chunks[i].len() - pos[i] + rem_sum(chunks, pos, i + 1)
    }
}

/// The events a list of chunk slots holds in all.
pub open spec fn chunk_sum(chunks: Seq<Seq<StreamView>>, i: int) -> int
    decreases chunks.len() - i,
{
    if i < 0 || i >= chunks.len() {
        0
    } else {
        chunks[i].len() + chunk_sum(chunks, i + 1)
    }
}

proof fn lemma_rem_sum_nonneg(chunks: Seq<Seq<StreamView>>, pos: Seq<usize>, i: int)
    requires
        pos.len() == chunks.len(),
        forall|w: int| 0 <= w < chunks.len() ==> pos[w] <= (#[trigger] chunks[w]).len(),
    ensures
        rem_sum(chunks, pos, i) >= 0,
    decreases chunks.len() - i,
{
    if 0 <= i < chunks.len() {
        lemma_rem_sum_nonneg(chunks, pos, i + 1);
    }
}

proof fn lemma_rem_sum_lower(chunks: Seq<Seq<StreamView>>, pos: Seq<usize>, i: int, w: int)
    requires
        pos.len() == chunks.len(),
        forall|v: int| 0 <= v < chunks.len() ==> pos[v] <= (#[trigger] chunks[v]).len(),
        0 <= i <= w < chunks.len(),
    ensures
        rem_sum(chunks, pos, i) >= chunks[w].len() - pos[w],
    decreases w - i,
{
    lemma_rem_sum_nonneg(chunks, pos, i + 1);
    if i < w {
        lemma_rem_sum_lower(chunks, pos, i + 1, w);
    }
}

proof fn lemma_rem_sum_update(
    chunks: Seq<Seq<StreamView>>,
    pos: Seq<usize>,
    w: int,
    x: usize,
    i: int,
)
    requires
        pos.len() == chunks.len(),
        0 <= w < chunks.len(),
        0 <= i,
    ensures
        rem_sum(chunks, pos.update(w, x), i) == rem_sum(chunks, pos, i) + (if i <= w {
            pos[w] - x
        } else {
            0int
        }),
    decreases chunks.len() - i,
{
    if 0 <= i < chunks.len() {
        lemma_rem_sum_update(chunks, pos, w, x, i + 1);
    }
}

/// The state of one enrichment run: the partitioned snapshot, each worker's
/// position in its chunk, which workers have given up, and the progress
/// counter.
pub struct Scheduler {
    chunks: Vec<Vec<Stream>>,
    pos: Vec<usize>,
    failed: Vec<bool>,
    completed: usize,
    total: usize,
}

impl Scheduler {
    /// The partitioned chunks, as mathematical values.
    pub closed spec fn spec_chunks(&self) -> Seq<Seq<StreamView>> {
        Seq::new(
            self.chunks@.len(),
            |w: int| self.chunks@[w]@.map_values(|e: Stream| e@),
        )
    }

    pub closed spec fn spec_pos(&self) -> Seq<usize> {
        self.pos@
    }

    pub closed spec fn spec_failed(&self) -> Seq<bool> {
        self.failed@
    }

    pub closed spec fn spec_completed(&self) -> int {
        self.completed as int
    }

    pub closed spec fn spec_total(&self) -> int {
        self.total as int
    }

    pub open spec fn num_workers(&self) -> int {
        self.spec_chunks().len() as int
    }

    /// The progress counter never outruns the assigned work, and positions
    /// stay inside their chunks.
    pub open spec fn wf(&self) -> bool {
        &&& self.spec_pos().len() == self.num_workers()
        &&& self.spec_failed().len() == self.num_workers()
        &&& forall|w: int|
            0 <= w < self.num_workers() ==> self.spec_pos()[w] <= (
            #[trigger] self.spec_chunks()[w]).len()
        &&& self.spec_completed() + rem_sum(self.spec_chunks(), self.spec_pos(), 0) <= chunk_sum(
            self.spec_chunks(),
            0,
        )
        &&& chunk_sum(self.spec_chunks(), 0) <= self.spec_total()
        &&& self.spec_total() <= usize::MAX
    }

    /// Whether worker `w` still has an event to process.
    pub open spec fn worker_pending(&self, w: int) -> bool {
        &&& !self.spec_failed()[w]
        &&& self.spec_pos()[w] < self.spec_chunks()[w].len()
    }

    /// The event worker `w` would process next.
    pub open spec fn current_event(&self, w: int) -> StreamView {
        self.spec_chunks()[w][self.spec_pos()[w] as int]
    }

    /// Takes the snapshot of un-enriched fixtures from the store and deals it
    /// out to `n` workers in contiguous chunks of `len / n`; the remainder
    /// events stay unassigned for this run.
    pub fn new(store: &EventStore, n: usize) -> (r: Scheduler)
        requires
            n >= 1,
            store@.filter(|v: StreamView| has_empty_link(v)).len() as int / (n as int) >= 1,
        ensures
            r.wf(),
            r.num_workers() == n,
            r.spec_completed() == 0,
            r.spec_total() == store@.filter(|v: StreamView| has_empty_link(v)).len() as int,
            forall|w: int| 0 <= w < n ==> r.spec_pos()[w] == 0,
            forall|w: int| 0 <= w < n ==> !r.spec_failed()[w],
            forall|w: int|
                0 <= w < n ==> (#[trigger] r.spec_chunks()[w]) == chunk_slice(
                    store@.filter(|v: StreamView| has_empty_link(v)),
                    store@.filter(|v: StreamView| has_empty_link(v)).len() as int / (n as int),
                    w,
                ),
    {
        let snapshot = store.get_empty_streams();
        let total = snapshot.len();
        let chunks = partition_chunks(&snapshot, n);
        let mut pos: Vec<usize> = Vec::new();
        let mut failed: Vec<bool> = Vec::new();
        let mut w: usize = 0;
        while w < n
            invariant
                w <= n,
                pos@.len() == w,
                failed@.len() == w,
                forall|k: int| 0 <= k < w ==> pos@[k] == 0,
                forall|k: int| 0 <= k < w ==> !failed@[k],
            decreases n - w,
        {
            pos.push(0);
            failed.push(false);
            w = w + 1;
        }
        let r = Scheduler { chunks, pos, failed, completed: 0, total };
        proof {
            let sv = snapshot@.map_values(|e: Stream| e@);
            let size = sv.len() as int / (n as int);
            assert forall|ww: int| 0 <= ww < n implies (#[trigger] r.spec_chunks()[ww])
                == chunk_slice(sv, size, ww) by {
                assert(r.spec_chunks()[ww] == r.chunks@[ww]@.map_values(|e: Stream| e@));
            }
            lemma_fundamental_div_mod(sv.len() as int, n as int);
            lemma_chunk_sum_of_slices(r.spec_chunks(), sv, size, 0);
            lemma_rem_sum_zero_pos(r.spec_chunks(), r.spec_pos(), 0);
        }
        r
    }

    /// The URL worker `w` should fetch next, if it has one.
    pub fn peek_url(&self, w: usize) -> (r: Option<String>)
        requires
            self.wf(),
            w < self.num_workers(),
        ensures
            r is Some <==> self.worker_pending(w as int),
            r matches Some(u) ==> u@ == self.current_event(w as int).url,
    {
        if self.failed[w] {
            return None;
        }
        let p = self.pos[w];
        if p < self.chunks[w].len() {
            proof {
                assert(self.spec_chunks()[w as int][p as int] == self.chunks@[w as int]@[
                    p as int
                ]@);
            }
            Some(self.chunks[w][p].url.clone())
        } else {
            None
        }
    }

    /// The progress line: events processed so far, out of the snapshot size.
    pub fn progress(&self) -> (r: (usize, usize))
        ensures
            r.0 == self.spec_completed(),
            r.1 == self.spec_total(),
    {
        (self.completed, self.total)
    }

    /// Records what came back for worker `w`'s current event and advances
    /// the run.
    ///
    /// A found links table updates the store under the percent-decoded URL —
    /// zero surviving candidates write the empty value back, so the event
    /// simply stays un-enriched; a missing links table is no error and
    /// leaves the store untouched; a fetch failure, like a URL that cannot
    /// be decoded, abandons the worker's remaining chunk. The counter moves
    /// exactly on processed events.
    pub fn record_outcome(&mut self, store: &mut EventStore, w: usize, outcome: PageOutcome)
        requires
            old(self).wf(),
            old(store).wf(),
            w < old(self).num_workers(),
            old(self).worker_pending(w as int),
        ensures
            final(self).wf(),
            final(store).wf(),
            final(self).spec_chunks() == old(self).spec_chunks(),
            final(self).spec_total() == old(self).spec_total(),
            (match outcome {
                PageOutcome::Links(cands) => (match url_decoded(
                    old(self).current_event(w as int).url,
                ) {
                    Some(d) => {
                        &&& final(store)@ == old(store)@.map_values(
                            |v: StreamView|
                                if v.url == d {
                                    with_link(v, links_of(cands.deep_view()))
                                } else {
                                    v
                                },
                        )
                        &&& final(self).spec_pos() == old(self).spec_pos().update(
                            w as int,
                            (old(self).spec_pos()[w as int] + 1) as usize,
                        )
                        &&& final(self).spec_failed() == old(self).spec_failed()
                        &&& final(self).spec_completed() == old(self).spec_completed() + 1
                    },
                    None => {
                        &&& final(store)@ == old(store)@
                        &&& final(self).spec_pos() == old(self).spec_pos()
                        &&& final(self).spec_failed() == old(self).spec_failed().update(
                            w as int,
                            true,
                        )
                        &&& final(self).spec_completed() == old(self).spec_completed()
                    },
                }),
                PageOutcome::NoLinksTable => {
                    &&& final(store)@ == old(store)@
                    &&& final(self).spec_pos() == old(self).spec_pos().update(
                        w as int,
                        (old(self).spec_pos()[w as int] + 1) as usize,
                    )
                    &&& final(self).spec_failed() == old(self).spec_failed()
                    &&& final(self).spec_completed() == old(self).spec_completed() + 1
                },
                PageOutcome::FetchFailed => {
                    &&& final(store)@ == old(store)@
                    &&& final(self).spec_pos() == old(self).spec_pos()
                    &&& final(self).spec_failed() == old(self).spec_failed().update(w as int, true)
                    &&& final(self).spec_completed() == old(self).spec_completed()
                },
            }),
    {
        proof {
            lemma_rem_sum_lower(self.spec_chunks(), self.spec_pos(), 0, w as int);
        }
        match outcome {
            PageOutcome::Links(cands) => {
                let p = self.pos[w];
                proof {
                    assert(self.spec_chunks()[w as int][p as int] == self.chunks@[w as int]@[
                        p as int
                    ]@);
                }
                let url = self.chunks[w][p].url.clone();
                match decode_url(url.as_str()) {
                    Some(decoded) => {
                        let links = stream_links_value(&cands);
                        store.update_link(decoded.as_str(), links.as_str());
                        self.advance(w);
                    },
                    None => {
                        self.failed[w] = true;
                    },
                }
            },
            PageOutcome::NoLinksTable => {
                self.advance(w);
            },
            PageOutcome::FetchFailed => {
                self.failed[w] = true;
            },
        }
    }

    /// Moves worker `w` past its current event and counts it processed.
    fn advance(&mut self, w: usize)
        requires
            old(self).wf(),
            w < old(self).num_workers(),
            old(self).worker_pending(w as int),
        ensures
            final(self).wf(),
            final(self).spec_chunks() == old(self).spec_chunks(),
            final(self).spec_total() == old(self).spec_total(),
            final(self).spec_failed() == old(self).spec_failed(),
            final(self).spec_pos() == old(self).spec_pos().update(
                w as int,
                (old(self).spec_pos()[w as int] + 1) as usize,
            ),
            final(self).spec_completed() == old(self).spec_completed() + 1,
    {
        proof {
            lemma_rem_sum_lower(self.spec_chunks(), self.spec_pos(), 0, w as int);
            lemma_rem_sum_update(
                self.spec_chunks(),
                self.spec_pos(),
                w as int,
                (self.spec_pos()[w as int] + 1) as usize,
                0,
            );
            lemma_rem_sum_nonneg(
                self.spec_chunks(),
                self.spec_pos().update(
                    w as int,
                    (self.spec_pos()[w as int] + 1) as usize,
                ),
                0,
            );
        }
        let p = self.pos[w];
        let chunk_len = self.chunks[w].len();
        assert(p < chunk_len);
        self.pos[w] = p + 1;
        self.completed = self.completed + 1;
    }
}

proof fn lemma_rem_sum_zero_pos(chunks: Seq<Seq<StreamView>>, pos: Seq<usize>, i: int)
    requires
        pos.len() == chunks.len(),
        forall|w: int| 0 <= w < chunks.len() ==> (#[trigger] pos[w]) == 0,
    ensures
        rem_sum(chunks, pos, i) == chunk_sum(chunks, i),
    decreases chunks.len() - i,
{
    if 0 <= i < chunks.len() {
        lemma_rem_sum_zero_pos(chunks, pos, i + 1);
    }
}

/// Contiguous size-`size` slices of a snapshot sum to at most the snapshot.
proof fn lemma_chunk_sum_of_slices(
    chunks: Seq<Seq<StreamView>>,
    snapshot: Seq<StreamView>,
    size: int,
    i: int,
)
    requires
        size >= 0,
        chunks.len() * size <= snapshot.len(),
        forall|w: int| 0 <= w < chunks.len() ==> (#[trigger] chunks[w]) == chunk_slice(
            snapshot,
            size,
            w,
        ),
        0 <= i <= chunks.len(),
    ensures
        chunk_sum(chunks, i) == (chunks.len() - i) * size,
    decreases chunks.len() - i,
{
    if i < chunks.len() {
        lemma_chunk_sum_of_slices(chunks, snapshot, size, i + 1);
        assert(chunks[i].len() == size) by {
            lemma_mul_inequality(i + 1, chunks.len() as int, size);
            lemma_mul_inequality(i, i + 1, size);
            vstd::arithmetic::mul::lemma_mul_nonnegative(i, size);
            vstd::arithmetic::mul::lemma_mul_is_distributive_add(size, i, 1);
            vstd::arithmetic::mul::lemma_mul_is_commutative(size, i + 1);
            vstd::arithmetic::mul::lemma_mul_is_commutative(size, i);
            assert((i + 1) * size == i * size + size);
        }
        assert((chunks.len() - i) * size == size + (chunks.len() - i - 1) * size) by {
            vstd::arithmetic::mul::lemma_mul_is_distributive_sub_other_way(
                size,
                chunks.len() - i,
                1,
            );
        }
        assert(chunk_sum(chunks, i) == chunks[i].len() + chunk_sum(chunks, i + 1));
        assert(chunk_sum(chunks, i + 1) == (chunks.len() - (i + 1)) * size);
        assert(chunks.len() - (i + 1) == chunks.len() - i - 1);
        assert(chunk_sum(chunks, i) == (chunks.len() - i) * size);
    } else {
        assert(chunk_sum(chunks, i) == 0);
        vstd::arithmetic::mul::lemma_mul_basics(size);
        assert((chunks.len() - i) * size == 0);
    }
}

} // verus!
