use vstd::prelude::*;
use vstd::arithmetic::div_mod::{lemma_fundamental_div_mod, lemma_fundamental_div_mod_converse};

use crate::encode::EncodedValuesWrapper;
use crate::inet::copy_bytes;
use crate::result::QueryResultWrapper;

verus! {

// The driver's continuation-token type, declared opaquely; its bytes are
// reached only through the trusted accessors below.
#[verifier::external_type_specification]
#[verifier::external_body]
pub struct ExPagingState(scylla::response::PagingState);

/// The token bytes a paging state holds; the start state holds none.
pub uninterp spec fn paging_state_bytes(p: scylla::response::PagingState) -> Option<Seq<u8>>;

/// Relies on PagingState::new_from_raw_bytes: stores exactly the given
/// bytes.
#[verifier::external_body]
fn paging_state_from_bytes(b: &[u8]) -> (r: scylla::response::PagingState)
    ensures
        paging_state_bytes(r) == Some(b@),
{
    scylla::response::PagingState::new_from_raw_bytes(b)
}

/// Relies on PagingState::as_bytes_slice: returns exactly the stored bytes,
/// or nothing for the start state.
#[verifier::external_body]
fn paging_state_as_bytes(p: &scylla::response::PagingState) -> (r: Option<Vec<u8>>)
    ensures
        match r {
            Some(v) => paging_state_bytes(*p) == Some(v@),
            None => paging_state_bytes(*p) is None,
        },
{
    p.as_bytes_slice().map(|e| e.to_vec())
}

/// An opaque continuation token as the host passes it around.  The token
/// bytes are preserved exactly: what `from_buffer` stores,
/// `get_raw_page_state` returns byte for byte.
pub struct PagingStateWrapper {
    pub inner: scylla::response::PagingState,
}

impl PagingStateWrapper {
    /// Restores a continuation token from its raw bytes.
    pub fn from_buffer(value: &[u8]) -> (r: PagingStateWrapper)
        ensures
            paging_state_bytes(r.inner) == Some(value@),
    {
        PagingStateWrapper { inner: paging_state_from_bytes(value) }
    }

    /// The raw bytes of the token; empty for the start state.
    pub fn get_raw_page_state(&self) -> (r: Vec<u8>)
        ensures
            match paging_state_bytes(self.inner) {
                Some(b) => r@ == b,
                None => r@ == Seq::<u8>::empty(),
            },
    {
        match paging_state_as_bytes(&self.inner) {
            Some(v) => v,
            None => Vec::new(),
        }
    }
}

/// One page's outcome as the host sees it: the decoded result and, when
/// more pages follow, the continuation token for the next fetch.
pub struct PagingResult {
    pub paging_state: Option<PagingStateWrapper>,
    pub result: QueryResultWrapper,
}

/// The immutable descriptor of a paged query: the statement identity (text,
/// and whether it runs prepared) and its bound parameters.  Created once per
/// logical query and reused unchanged for every page fetch.
pub struct PagedQuery {
    pub statement: String,
    pub prepared: bool,
    pub params: Vec<EncodedValuesWrapper>,
}

/// Where a paging sequence stands: before the first fetch, holding the
/// resume token of the next page, or past the last page.
pub enum PagingPhase {
    NotStarted,
    HasPage(Vec<u8>),
    Exhausted,
}

/// The paging state machine: it decides what to send with the next fetch
/// and advances only on a recorded response.  A failed fetch records
/// nothing, so the sequence can be retried with the same continuation.
pub struct PagingSession {
    pub query: PagedQuery,
    pub phase: PagingPhase,
}

impl PagingSession {
    /// Opens a sequence: no page fetched yet.
    pub fn start(query: PagedQuery) -> (r: PagingSession)
        ensures
            r.query == query,
            r.phase == PagingPhase::NotStarted,
    {
        PagingSession { query, phase: PagingPhase::NotStarted }
    }

    /// The statement descriptor, threaded unchanged into every fetch.
    pub fn query(&self) -> (r: &PagedQuery)
        ensures
            *r == self.query,
    {
        &self.query
    }

    /// What to send with the next fetch: nothing more once exhausted; a
    /// fetch from the start before the first page; afterwards a fetch
    /// resuming at the held token.
    pub fn next_request(&self) -> (r: Option<Option<Vec<u8>>>)
        ensures
            match self.phase {
                PagingPhase::NotStarted => r == Some(Option::<Vec<u8>>::None),
                PagingPhase::HasPage(t) => r is Some && r->0 is Some && r->0->0@ == t@,
                PagingPhase::Exhausted => r is None,
            },
    {
        match &self.phase {
            PagingPhase::NotStarted => Some(None),
            PagingPhase::HasPage(t) => Some(Some(copy_bytes(t.as_slice()))),
            PagingPhase::Exhausted => None,
        }
    }

    /// Records the continuation a successful fetch returned: a token means
    /// more pages follow; none means the sequence is exhausted.  The
    /// descriptor never changes.
    pub fn record_page(&mut self, token: Option<Vec<u8>>)
        requires
            !(old(self).phase is Exhausted),
        ensures
            final (self).query == old(self).query,
            match token {
                Some(t) => final (self).phase == PagingPhase::HasPage(t),
                None => final (self).phase is Exhausted,
            },
    {
        match token {
            Some(t) => {
                self.phase = PagingPhase::HasPage(t);
            },
            None => {
                self.phase = PagingPhase::Exhausted;
            },
        }
    }
}

// ---------------------------------------------------------------------------
// The page partition of a row sequence.
// ---------------------------------------------------------------------------

/// The pages of a row sequence under a page size: consecutive chunks in
/// order, all full but the last.
pub open spec fn pages_of<R>(rows: Seq<R>, p: int) -> Seq<Seq<R>>
    decreases rows.len(),
    when p >= 1
{
    if rows.len() == 0 {
        Seq::empty()
    } else if rows.len() <= p {
        seq![rows]
    } else {
        seq![rows.take(p)] + pages_of(rows.skip(p), p)
    }
}

/// The rows of all pages, in fetch order.
pub open spec fn concat_pages<R>(ps: Seq<Seq<R>>) -> Seq<R>
    decreases ps.len(),
{
    if ps.len() == 0 {
        Seq::empty()
    } else {
        ps[0] + concat_pages(ps.skip(1))
    }
}

/// Splits rows into fetch-order pages of at most `p` rows each, as a
/// well-behaved server pages a result set.
pub fn paginate<R>(rows: Vec<R>, p: usize) -> (r: Vec<Vec<R>>)
    requires
        p >= 1,
    ensures
        r@.map_values(|v: Vec<R>| v@) == pages_of(rows@, p as int),
{
    let ghost rows0 = rows@;
    let mut rows = rows;
    let mut out: Vec<Vec<R>> = Vec::new();
    while rows.len() > p
        invariant
            p >= 1,
            pages_of(rows0, p as int) =~= out@.map_values(|v: Vec<R>| v@) + pages_of(
                rows@,
                p as int,
            ),
        decreases rows@.len(),
    {
        let ghost pre = rows@;
        let ghost preout = out@;
        let tail = rows.split_off(p);
        let head = rows;
        rows = tail;
        out.push(head);
        proof {
            assert(head@ =~= pre.take(p as int));
            assert(rows@ =~= pre.skip(p as int));
            assert(out@.map_values(|v: Vec<R>| v@) =~= preout.map_values(|v: Vec<R>| v@)
                + seq![head@]);
            assert(pages_of(pre, p as int) =~= seq![pre.take(p as int)] + pages_of(
                pre.skip(p as int),
                p as int,
            ));
        }
    }
    if rows.len() > 0 {
        let ghost pre = rows@;
        let ghost preout = out@;
        out.push(rows);
        proof {
            assert(pages_of(pre, p as int) =~= seq![pre]);
            assert(out@.map_values(|v: Vec<R>| v@) =~= preout.map_values(|v: Vec<R>| v@)
                + seq![pre]);
            assert(out@.map_values(|v: Vec<R>| v@) =~= pages_of(rows0, p as int));
        }
        return out;
    }
    proof {
        assert(pages_of(rows@, p as int) =~= Seq::<Seq<R>>::empty());
        assert(out@.map_values(|v: Vec<R>| v@) =~= pages_of(rows0, p as int));
    }
    out
}

/// The paging partition law: a sequence of rows with page size `p` splits
/// into exactly the rounded-up quotient many pages; every page before the
/// last holds exactly `p` rows, the last holds between one and `p`, and the
/// concatenation of the pages in fetch order is the original row sequence in
/// its original order.
pub proof fn lemma_paging_partition<R>(rows: Seq<R>, p: int)
    requires
        p >= 1,
    ensures
        pages_of(rows, p).len() == (rows.len() + p - 1) / p,
        forall|i: int|
            0 <= i < pages_of(rows, p).len() - 1 ==> (#[trigger] pages_of(rows, p)[i]).len() == p,
        pages_of(rows, p).len() > 0 ==> 1 <= pages_of(rows, p).last().len() <= p,
        concat_pages(pages_of(rows, p)) == rows,
    decreases rows.len(),
{
    let n = rows.len() as int;
    if n == 0 {
        lemma_fundamental_div_mod_converse(p - 1, p, 0, p - 1);
    } else if n <= p {
        lemma_fundamental_div_mod_converse(n + p - 1, p, 1, n - 1);
        assert(pages_of(rows, p) =~= seq![rows]);
        assert(seq![rows].skip(1) =~= Seq::<Seq<R>>::empty());
        assert(concat_pages(Seq::<Seq<R>>::empty()) == Seq::<R>::empty());
        assert(concat_pages(pages_of(rows, p)) =~= rows);
    } else {
        lemma_paging_partition(rows.skip(p), p);
        let rest = pages_of(rows.skip(p), p);
        lemma_fundamental_div_mod(n - p + p - 1, p);
        let q = (n - p + p - 1) / p;
        let r = (n - p + p - 1) % p;
        assert(n + p - 1 == (q + 1) * p + r) by (nonlinear_arith)
            requires
                n - p + p - 1 == p * q + r,
        ;
        lemma_fundamental_div_mod_converse(n + p - 1, p, q + 1, r);
        let whole = pages_of(rows, p);
        assert(whole == seq![rows.take(p)] + rest);
        assert(whole.last() == rest.last());
        assert forall|i: int| 0 <= i < whole.len() - 1 implies (#[trigger] whole[i]).len()
            == p by {
            if i > 0 {
                assert(whole[i] == rest[i - 1]);
            }
        }
        assert(whole.skip(1) =~= rest);
        assert(concat_pages(whole) =~= rows);
    }
}

} // verus!
