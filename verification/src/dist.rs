//! Sampling distributions built from scanned session logs.

use vstd::prelude::*;

use crate::codec::{cp1251_decoded, decode_cp1251};
use crate::freq::{
    counts_positive, entries_map, entry_views, is_top_entries, keys_distinct, tally, FreqTable,
};
use crate::scan::{event_lines, event_lines_at_most, scan_session, scan_text, SessionStats};
use crate::text::{chars_of, lemma_views_push, views};

verus! {

/// How many stored sessions a snapshot samples, at most.
pub const SAMPLE_LIMIT: usize = 500;

/// How many document ids a snapshot keeps, at most (the most frequent).
pub const DOC_LIMIT: usize = 5000;

/// How many query texts a snapshot keeps, at most (the first ones).
pub const QUERY_LIMIT: usize = 200;

/// Distributions that synthetic sessions are drawn from.
pub struct Distributions {
    /// How many stored sessions were sampled.
    pub sample_size: usize,
    /// Event counts of the sampled sessions.
    pub events_per_session: Vec<u32>,
    /// Each event kind with its weight (in a snapshot, its number of
    /// occurrences).
    pub event_kinds: Vec<(String, u64)>,
    /// Gaps in seconds between consecutive events.
    pub inter_event_seconds: Vec<u32>,
    /// Document ids with their frequencies, most frequent first.
    pub doc_ids: Vec<(String, u64)>,
    /// Query texts.
    pub queries: Vec<String>,
}

pub struct DistView {
    pub sample_size: nat,
    pub events_per_session: Seq<u32>,
    pub event_kinds: Seq<(Seq<char>, u64)>,
    pub inter_event_seconds: Seq<u32>,
    pub doc_ids: Seq<(Seq<char>, u64)>,
    pub queries: Seq<Seq<char>>,
}

impl View for Distributions {
    type V = DistView;

    open spec fn view(&self) -> DistView {
        DistView {
            sample_size: self.sample_size as nat,
            events_per_session: self.events_per_session@,
            event_kinds: entry_views(self.event_kinds@),
            inter_event_seconds: self.inter_event_seconds@,
            doc_ids: entry_views(self.doc_ids@),
            queries: views(self.queries@),
        }
    }
}

/// The number of stored sessions a snapshot samples out of `n_keys`.
pub fn sample_count(n_keys: usize) -> (n: usize)
    ensures
        n == if n_keys < SAMPLE_LIMIT {
            n_keys
        } else {
            SAMPLE_LIMIT
        },
{
    if n_keys < SAMPLE_LIMIT {
        n_keys
    } else {
        SAMPLE_LIMIT
    }
}

/// `s` cut to at most `n` elements.
pub open spec fn first_n<A>(s: Seq<A>, n: nat) -> Seq<A> {
    if s.len() <= n {
        s
    } else {
        s.take(n as int)
    }
}

/// Accumulates the statistics of sampled sessions.
pub struct DistributionBuilder {
    events_per_session: Vec<u32>,
    gaps: Vec<u32>,
    kinds: FreqTable,
    docs: FreqTable,
    queries: Vec<String>,
}

impl DistributionBuilder {
    pub closed spec fn wf(&self) -> bool {
        self.kinds.wf() && self.docs.wf()
    }

    /// Event counts of the sessions added, in order.
    pub closed spec fn events(&self) -> Seq<u32> {
        self.events_per_session@
    }

    /// Gaps of the sessions added, in order.
    pub closed spec fn gaps(&self) -> Seq<u32> {
        self.gaps@
    }

    /// How often each event kind occurred.
    pub closed spec fn kind_counts(&self) -> Map<Seq<char>, nat> {
        self.kinds.counts()
    }

    /// How often each document id occurred.
    pub closed spec fn doc_counts(&self) -> Map<Seq<char>, nat> {
        self.docs.counts()
    }

    /// Number of event kinds counted.
    pub closed spec fn kind_total(&self) -> nat {
        self.kinds.total_count()
    }

    /// Number of document ids counted.
    pub closed spec fn doc_total(&self) -> nat {
        self.docs.total_count()
    }

    /// Query texts of the sessions added, in order.
    pub closed spec fn queries(&self) -> Seq<Seq<char>> {
        views(self.queries@)
    }

    pub fn new() -> (b: DistributionBuilder)
        ensures
            b.wf(),
            b.events() == Seq::<u32>::empty(),
            b.gaps() == Seq::<u32>::empty(),
            b.kind_counts() == Map::<Seq<char>, nat>::empty(),
            b.doc_counts() == Map::<Seq<char>, nat>::empty(),
            b.kind_total() == 0,
            b.doc_total() == 0,
            b.queries() == Seq::<Seq<char>>::empty(),
    {
        let b = DistributionBuilder {
            events_per_session: Vec::new(),
            gaps: Vec::new(),
            kinds: FreqTable::new(),
            docs: FreqTable::new(),
            queries: Vec::new(),
        };
        assert(views(b.queries@) =~= Seq::<Seq<char>>::empty());
        b
    }

    /// Whether the counters have room for the statistics of one more session.
    pub fn can_add(&self, stats: &SessionStats) -> (b: bool)
        ensures
            b == (self.kind_total() + stats.kinds@.len() <= u64::MAX && self.doc_total()
                + stats.docs@.len() <= u64::MAX),
    {
        stats.kinds.len() as u64 <= u64::MAX - self.kinds.total() && stats.docs.len() as u64
            <= u64::MAX - self.docs.total()
    }

    /// Adds the statistics of one sampled session.
    pub fn add_session(&mut self, stats: SessionStats)
        requires
            old(self).wf(),
            old(self).kind_total() + stats.kinds@.len() <= u64::MAX,
            old(self).doc_total() + stats.docs@.len() <= u64::MAX,
        ensures
            final(self).wf(),
            final(self).events() == old(self).events().push(stats.event_count),
            final(self).gaps() == old(self).gaps() + stats.gaps@,
            final(self).kind_counts() == tally(old(self).kind_counts(), stats@.kinds),
            final(self).doc_counts() == tally(old(self).doc_counts(), stats@.docs),
            final(self).kind_total() == old(self).kind_total() + stats.kinds@.len(),
            final(self).doc_total() == old(self).doc_total() + stats.docs@.len(),
            final(self).queries() == old(self).queries() + stats@.queries,
    {
        let SessionStats { event_count, gaps, kinds, docs, queries } = stats;
        self.events_per_session.push(event_count);
        let mut gaps = gaps;
        self.gaps.append(&mut gaps);
        self.kinds.add_all(&kinds);
        self.docs.add_all(&docs);
        let mut queries = queries;
        let ghost q0 = self.queries@;
        let ghost q1 = queries@;
        self.queries.append(&mut queries);
        assert(views(q0 + q1) =~= views(q0) + views(q1));
    }

    /// The distributions of the sessions added, from `sample_size` sampled
    /// sessions: the event kinds with their counts, the `DOC_LIMIT` most
    /// frequent document ids with their counts, and the first `QUERY_LIMIT`
    /// queries.
    pub fn finish(self, sample_size: usize) -> (d: Distributions)
        requires
            self.wf(),
        ensures
            d@.sample_size == sample_size,
            d@.events_per_session == self.events(),
            d@.inter_event_seconds == self.gaps(),
            keys_distinct(d@.event_kinds),
            counts_positive(d@.event_kinds),
            entries_map(d@.event_kinds) == self.kind_counts(),
            is_top_entries(d@.doc_ids, self.doc_counts(), DOC_LIMIT as nat),
            d@.queries == first_n(self.queries(), QUERY_LIMIT as nat),
    {
        let doc_ids = self.docs.top(DOC_LIMIT);
        proof {
            self.kinds.lemma_entry_list();
        }
        let event_kinds = self.kinds.into_entries();
        let mut queries = self.queries;
        let ghost q0 = queries@;
        if queries.len() > QUERY_LIMIT {
            queries.truncate(QUERY_LIMIT);
        }
        proof {
            assert(views(queries@) =~= first_n(views(q0), QUERY_LIMIT as nat));
        }
        Distributions {
            sample_size,
            events_per_session: self.events_per_session,
            event_kinds,
            inter_event_seconds: self.gaps,
            doc_ids,
            queries,
        }
    }
}


/// Decodes and scans one stored session. `None` when the session holds more
/// main events than an event count can record.
pub fn scan_object(bytes: &[u8]) -> (r: Option<SessionStats>)
    requires
        bytes@.len() <= usize::MAX / 4,
    ensures
        match r {
            Some(s) => s@ == scan_text(cp1251_decoded(bytes@)),
            None => event_lines(cp1251_decoded(bytes@)) > u32::MAX,
        },
{
    let text = decode_cp1251(bytes);
    let cs = chars_of(text.as_str());
    if !event_lines_at_most(&cs, 4294967295) {
        return None;
    }
    Some(scan_session(text.as_str()))
}

/// The keys of a listing page that are present, in order.
pub open spec fn present_keys(page: Seq<Option<String>>) -> Seq<Seq<char>>
    decreases page.len(),
{
    if page.len() == 0 {
        Seq::empty()
    } else {
        match page.last() {
            Some(k) => present_keys(page.drop_last()).push(k@),
            None => present_keys(page.drop_last()),
        }
    }
}

/// The progress of listing the stored sessions page by page.
pub struct KeyListing {
    /// The keys listed so far.
    pub keys: Vec<String>,
    /// The token to ask for the next page with.
    pub continuation: Option<String>,
    /// Whether the last page was reached.
    pub done: bool,
}

impl KeyListing {
    pub fn new() -> (l: KeyListing)
        ensures
            l.keys@.len() == 0,
            l.continuation is None,
            !l.done,
    {
        KeyListing { keys: Vec::new(), continuation: None, done: false }
    }

    /// Takes in one page of a listing: the keys of its objects (those that
    /// have one), and whether more pages follow with the token for the next.
    /// Listing goes on exactly when the page says it is truncated.
    pub fn absorb_page(
        &mut self,
        contents: Option<Vec<Option<String>>>,
        is_truncated: Option<bool>,
        next_token: Option<String>,
    )
        ensures
            views(final(self).keys@) == views(old(self).keys@) + match contents {
                Some(page) => present_keys(page@),
                None => Seq::empty(),
            },
            final(self).done == !(is_truncated == Some(true)),
            final(self).done ==> final(self).continuation == old(self).continuation,
            !final(self).done ==> final(self).continuation == next_token,
    {
        if let Some(page) = contents {
            let ghost k0 = views(self.keys@);
            let mut i: usize = 0;
            while i < page.len()
                invariant
                    0 <= i <= page@.len(),
                    views(self.keys@) == k0 + present_keys(page@.take(i as int)),
                    self.continuation == old(self).continuation,
                decreases page@.len() - i,
            {
                proof {
                    assert(page@.take(i + 1).drop_last() =~= page@.take(i as int));
                }
                match &page[i] {
                    Some(k) => {
                        let key = k.clone();
                        proof {
                            lemma_views_push(self.keys@, key);
                        }
                        self.keys.push(key);
                    },
                    None => {},
                }
                i = i + 1;
            }
            assert(page@.take(page@.len() as int) =~= page@);
        } else {
            assert(views(self.keys@) =~= views(self.keys@) + Seq::<Seq<char>>::empty());
        }
        let more = match is_truncated {
            Some(t) => t,
            None => false,
        };
        if more {
            self.continuation = next_token;
            self.done = false;
        } else {
            self.done = true;
        }
    }
}

} // verus!
