//! Merging the sources: the whitelist, the blacklist, cache fallback and failure.
use vstd::prelude::*;
use crate::host::Host;
use crate::hostset::{HostSet, views, strictly_sorted};
use crate::output::{BlocklistOutput, output_lines, line_for, lemma_written_hosts};
use crate::parser::{ParseError, ParseErrorView, IpKind, result_view, resolve_all_spec, scan_spec};

verus! {

/// The outcome of one line, as a value.
pub type LineOutcome = Result<Seq<char>, ParseErrorView>;

/// The hosts that some outcome accepts.
pub open spec fn ok_hosts(rs: Seq<LineOutcome>) -> Set<Seq<char>> {
    Set::new(|h: Seq<char>| exists|i: int| 0 <= i < rs.len() && rs[i] == Ok::<Seq<char>, ParseErrorView>(h))
}

/// Whether some outcome is an error.
pub open spec fn has_error(rs: Seq<LineOutcome>) -> bool {
    exists|i: int| 0 <= i < rs.len() && (#[trigger] rs[i]) is Err
}

/// The state of a merge: the hosts so far, the hosts never to add, and whether anything failed.
pub struct MergeView {
    pub merged: Set<Seq<char>>,
    pub whitelist: Set<Seq<char>>,
    pub failed: bool,
}

/// The state after taking in the outcomes of one source.
pub open spec fn absorb_spec(s: MergeView, rs: Seq<LineOutcome>) -> MergeView {
    MergeView {
        merged: s.merged + ok_hosts(rs).difference(s.whitelist),
        whitelist: s.whitelist,
        failed: s.failed || has_error(rs),
    }
}

/// One more outcome adds its host, if it accepts one, and is an error or not.
proof fn lemma_outcomes_push(rs: Seq<LineOutcome>, x: LineOutcome)
    ensures
        ok_hosts(rs.push(x)) == match x {
            Ok(h) => ok_hosts(rs).insert(h),
            Err(_) => ok_hosts(rs),
        },
        has_error(rs.push(x)) == (has_error(rs) || x is Err),
{
    let post = rs.push(x);
    assert forall|h: Seq<char>| ok_hosts(post).contains(h) == (ok_hosts(rs).contains(h) || x == Ok::<
        Seq<char>,
        ParseErrorView,
    >(h)) by {
        if ok_hosts(post).contains(h) {
            let k = choose|k: int| 0 <= k < post.len() && post[k] == Ok::<Seq<char>, ParseErrorView>(h);
            if k < rs.len() {
                assert(rs[k] == post[k]);
            }
        }
        if ok_hosts(rs).contains(h) {
            let k = choose|k: int| 0 <= k < rs.len() && rs[k] == Ok::<Seq<char>, ParseErrorView>(h);
            assert(post[k] == rs[k]);
        }
        if x == Ok::<Seq<char>, ParseErrorView>(h) {
            assert(post[rs.len() as int] == x);
        }
    }
    match x {
        Ok(h) => assert(ok_hosts(post) =~= ok_hosts(rs).insert(h)),
        Err(_) => assert(ok_hosts(post) =~= ok_hosts(rs)),
    }
    if has_error(post) {
        let k = choose|k: int| 0 <= k < post.len() && (#[trigger] post[k]) is Err;
        if k < rs.len() {
            assert(rs[k] == post[k]);
        }
    }
    if has_error(rs) {
        let k = choose|k: int| 0 <= k < rs.len() && (#[trigger] rs[k]) is Err;
        assert(post[k] == rs[k]);
    }
    if x is Err {
        assert(post[rs.len() as int] is Err);
    }
}

/// The views of a batch of outcomes.
pub open spec fn outcomes(v: Seq<Result<Host, ParseError>>) -> Seq<LineOutcome> {
    v.map_values(|x: Result<Host, ParseError>| result_view(x))
}

/// What became of the attempt to get one source's text.
#[derive(Debug)]
pub enum Event {
    /// The source answered with this text.
    Fetched(String),
    /// The source could not be fetched.
    FetchFailed,
    /// The cache held this text for the source.
    CacheHit(String),
    /// The cache held nothing for the source.
    CacheMiss,
}

/// What to do next with one source.
#[derive(Debug)]
pub enum Action {
    /// Store the text in the cache, then read its hosts.
    StoreAndParse(String),
    /// Look the source up in the cache.
    ReadCache,
    /// Read the hosts of this text.
    Parse(String),
    /// Leave the source out.
    Skip,
}

/// The mathematical value of an `Event`.
pub enum EventView {
    Fetched(Seq<char>),
    FetchFailed,
    CacheHit(Seq<char>),
    CacheMiss,
}

/// The mathematical value of an `Action`.
pub enum ActionView {
    StoreAndParse(Seq<char>),
    ReadCache,
    Parse(Seq<char>),
    Skip,
}

impl View for Event {
    type V = EventView;

    open spec fn view(&self) -> EventView {
        match self {
            Event::Fetched(t) => EventView::Fetched(t@),
            Event::FetchFailed => EventView::FetchFailed,
            Event::CacheHit(t) => EventView::CacheHit(t@),
            Event::CacheMiss => EventView::CacheMiss,
        }
    }
}

impl View for Action {
    type V = ActionView;

    open spec fn view(&self) -> ActionView {
        match self {
            Action::StoreAndParse(t) => ActionView::StoreAndParse(t@),
            Action::ReadCache => ActionView::ReadCache,
            Action::Parse(t) => ActionView::Parse(t@),
            Action::Skip => ActionView::Skip,
        }
    }
}

/// How a merge goes on from an event: fresh text is stored and read; a failed fetch marks the
/// merge as failed and turns to the cache; cached text is read, the merge staying failed; with
/// neither, the source is left out.
pub open spec fn step_spec(s: MergeView, e: EventView) -> (MergeView, ActionView) {
    match e {
        EventView::Fetched(t) => (s, ActionView::StoreAndParse(t)),
        EventView::FetchFailed => (MergeView { failed: true, ..s }, ActionView::ReadCache),
        EventView::CacheHit(t) => (s, ActionView::Parse(t)),
        EventView::CacheMiss => (s, ActionView::Skip),
    }
}

/// Merges the hosts of each source into one set, seeded with the blacklist.
pub struct Merger {
    merged: HostSet,
    whitelist: HostSet,
    failed: bool,
}

impl View for Merger {
    type V = MergeView;

    closed spec fn view(&self) -> MergeView {
        MergeView { merged: self.merged@, whitelist: self.whitelist@, failed: self.failed }
    }
}

impl Merger {
    /// A merge that holds the blacklist and has not failed.
    pub fn new(blacklist: HostSet, whitelist: HostSet) -> (r: Merger)
        ensures
            r@ == (MergeView { merged: blacklist@, whitelist: whitelist@, failed: false }),
    {
        Merger { merged: blacklist, whitelist, failed: false }
    }

    /// Whether any source or line has failed.
    pub fn failed(&self) -> (r: bool)
        ensures
            r == self@.failed,
    {
        self.failed
    }

    /// The hosts merged so far.
    pub fn merged(&self) -> (r: &HostSet)
        ensures
            r@ == self@.merged,
    {
        &self.merged
    }

    /// Decides what to do next with a source, after an event.
    pub fn on_event(&mut self, ev: Event) -> (r: Action)
        ensures
            (final(self)@, r@) == step_spec(old(self)@, ev@),
    {
        match ev {
            Event::Fetched(t) => Action::StoreAndParse(t),
            Event::FetchFailed => {
                self.failed = true;
                Action::ReadCache
            },
            Event::CacheHit(t) => Action::Parse(t),
            Event::CacheMiss => Action::Skip,
        }
    }

    /// Takes in the outcomes of one source: each accepted host not on the whitelist joins the
    /// set, and any error marks the merge as failed.
    pub fn absorb(&mut self, results: &Vec<Result<Host, ParseError>>)
        ensures
            final(self)@ == absorb_spec(old(self)@, outcomes(results@)),
    {
        let ghost rs = outcomes(results@);
        let ghost white = self.whitelist@;
        let mut fresh: Vec<Host> = Vec::new();
        let mut bad = false;
        let mut i: usize = 0;
        assert(views(fresh@).to_set() =~= ok_hosts(rs.subrange(0, 0)).difference(white));
        while i < results.len()
            invariant
                rs == outcomes(results@),
                white == self.whitelist@,
                self@ == old(self)@,
                i <= results.len(),
                views(fresh@).to_set() == ok_hosts(rs.subrange(0, i as int)).difference(white),
                bad == has_error(rs.subrange(0, i as int)),
            decreases results.len() - i,
        {
            let ghost pre = rs.subrange(0, i as int);
            let ghost post = rs.subrange(0, i + 1);
            let ghost old_fresh = views(fresh@);
            assert(post =~= pre.push(rs[i as int]));
            assert(rs[i as int] == result_view(results@[i as int]));
            proof {
                lemma_outcomes_push(pre, rs[i as int]);
            }
            match &results[i] {
                Ok(h) => {
                    if !self.whitelist.contains(h) {
                        fresh.push(h.copy());
                        assert(views(fresh@) =~= old_fresh.push(h@));
                        proof {
                            old_fresh.lemma_push_to_set_commute(h@);
                        }
                    }
                    assert(ok_hosts(post).difference(white) =~= if white.contains(h@) {
                        ok_hosts(pre).difference(white)
                    } else {
                        ok_hosts(pre).difference(white).insert(h@)
                    });
                },
                Err(_) => {
                    bad = true;
                },
            }
            i = i + 1;
        }
        assert(rs.subrange(0, i as int) =~= rs);
        let add = HostSet::from_hosts(fresh);
        self.merged = self.merged.union(&add);
        self.failed = self.failed || bad;
    }
}

/// The state after taking in the outcomes of several sources, in order.
pub open spec fn run_spec(s: MergeView, batches: Seq<Seq<LineOutcome>>) -> MergeView
    decreases batches.len(),
{
    if batches.len() == 0 {
        s
    } else {
        absorb_spec(run_spec(s, batches.drop_last()), batches.last())
    }
}

/// The hosts that some outcome of some source accepts.
pub open spec fn all_ok_hosts(batches: Seq<Seq<LineOutcome>>) -> Set<Seq<char>>
    decreases batches.len(),
{
    if batches.len() == 0 {
        Set::empty()
    } else {
        all_ok_hosts(batches.drop_last()) + ok_hosts(batches.last())
    }
}

/// Taking in the same outcomes a second time changes nothing: the merge is a set.
pub proof fn lemma_absorb_idempotent(s: MergeView, rs: Seq<LineOutcome>)
    ensures
        absorb_spec(absorb_spec(s, rs), rs) == absorb_spec(s, rs),
{
    assert(absorb_spec(absorb_spec(s, rs), rs).merged =~= absorb_spec(s, rs).merged);
}

/// After any sources, the merged hosts are those the merge began with, and every accepted host
/// that is not on the whitelist.
pub proof fn lemma_run_merged(s: MergeView, batches: Seq<Seq<LineOutcome>>)
    ensures
        run_spec(s, batches).merged == s.merged + all_ok_hosts(batches).difference(s.whitelist),
        run_spec(s, batches).whitelist == s.whitelist,
    decreases batches.len(),
{
    if batches.len() == 0 {
        assert(s.merged + Set::<Seq<char>>::empty().difference(s.whitelist) =~= s.merged);
    } else {
        lemma_run_merged(s, batches.drop_last());
        assert(run_spec(s, batches).merged =~= s.merged + all_ok_hosts(batches).difference(
            s.whitelist,
        ));
    }
}

/// A host on the whitelist and not on the blacklist is never merged, whatever the sources say;
/// a host on the blacklist is always merged, whether a source lists it or not.
pub proof fn lemma_whitelist_precedence(
    blacklist: Set<Seq<char>>,
    whitelist: Set<Seq<char>>,
    batches: Seq<Seq<LineOutcome>>,
    h: Seq<char>,
)
    ensures
        ({
            let merged = run_spec(
                MergeView { merged: blacklist, whitelist, failed: false },
                batches,
            ).merged;
            &&& whitelist.contains(h) && !blacklist.contains(h) ==> !merged.contains(h)
            &&& blacklist.contains(h) ==> merged.contains(h)
        }),
{
    lemma_run_merged(MergeView { merged: blacklist, whitelist, failed: false }, batches);
}

/// When a source cannot be fetched and the cache holds text for it, that text is read, the
/// merge is marked failed, and the hosts the text yields (less the whitelist) are merged.
pub proof fn lemma_cache_fallback(s: MergeView, cached: Seq<char>, kinds: Seq<IpKind>)
    requires
        kinds.len() == scan_spec(cached).len(),
    ensures
        ({
            let (s1, a1) = step_spec(s, EventView::FetchFailed);
            let (s2, a2) = step_spec(s1, EventView::CacheHit(cached));
            let rs = resolve_all_spec(scan_spec(cached), kinds);
            let s3 = absorb_spec(s2, rs);
            &&& a1 == ActionView::ReadCache
            &&& a2 == ActionView::Parse(cached)
            &&& s3.failed
            &&& ok_hosts(rs).difference(s.whitelist).subset_of(s3.merged)
            &&& s.merged.subset_of(s3.merged)
        }),
{
}

/// Whitelist precedence in the written output: of the lines written for the merged hosts of a
/// run (in ascending order, as `write_to` writes them), none blocks a host on the whitelist and
/// not on the blacklist, and exactly one blocks each host on the blacklist.
pub proof fn lemma_whitelist_precedence_written(
    f: BlocklistOutput,
    blacklist: Set<Seq<char>>,
    whitelist: Set<Seq<char>>,
    batches: Seq<Seq<LineOutcome>>,
    hs: Seq<Seq<char>>,
    h: Seq<char>,
)
    requires
        strictly_sorted(hs),
        hs.to_set() == run_spec(
            MergeView { merged: blacklist, whitelist, failed: false },
            batches,
        ).merged,
    ensures
        whitelist.contains(h) && !blacklist.contains(h) ==> !output_lines(f, hs).contains(
            line_for(f, h),
        ),
        blacklist.contains(h) ==> output_lines(f, hs).contains(line_for(f, h)),
        output_lines(f, hs).no_duplicates(),
{
    lemma_whitelist_precedence(blacklist, whitelist, batches, h);
    lemma_written_hosts(f, hs, h);
}

/// Cache fallback in the written output: when a source falls back to its cached text, every
/// host that text yields and the whitelist does not hold is written.
pub proof fn lemma_cache_fallback_written(
    f: BlocklistOutput,
    s: MergeView,
    cached: Seq<char>,
    kinds: Seq<IpKind>,
    hs: Seq<Seq<char>>,
    h: Seq<char>,
)
    requires
        kinds.len() == scan_spec(cached).len(),
        strictly_sorted(hs),
        hs.to_set() == absorb_spec(
            step_spec(step_spec(s, EventView::FetchFailed).0, EventView::CacheHit(cached)).0,
            resolve_all_spec(scan_spec(cached), kinds),
        ).merged,
        ok_hosts(resolve_all_spec(scan_spec(cached), kinds)).contains(h),
        !s.whitelist.contains(h),
    ensures
        output_lines(f, hs).contains(line_for(f, h)),
{
    lemma_cache_fallback(s, cached, kinds);
    let rs = resolve_all_spec(scan_spec(cached), kinds);
    assert(ok_hosts(rs).difference(s.whitelist).contains(h));
    assert(hs.to_set().contains(h));
    assert(hs.contains(h));
    lemma_written_hosts(f, hs, h);
}

} // verus!
