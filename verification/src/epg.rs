//! Programme data model and the in-memory schedule cache: per-channel
//! programme lists sorted by start time, now/next queries, and the merge
//! step that folds a freshly parsed guide into the cache.
use crate::kvmap::KvMap;
use vstd::prelude::*;

verus! {

/// Mathematical view of a programme: character sequences and instants in
/// seconds since the Unix epoch.
pub struct ProgramView {
    pub id: Seq<char>,
    pub channel_id: Seq<char>,
    pub title: Seq<char>,
    pub description: Option<Seq<char>>,
    pub start: int,
    pub end: int,
    pub category: Option<Seq<char>>,
    pub icon_url: Option<Seq<char>>,
}

/// A single programme entry from an XMLTV guide feed. Instants are UTC,
/// in seconds since the Unix epoch; `end` is exclusive.
#[derive(Debug)]
pub struct EpgProgram {
    /// Identifier generated from the channel reference and the start time.
    pub id: String,
    /// The XMLTV channel ID this programme belongs to.
    pub channel_id: String,
    /// Programme title.
    pub title: String,
    /// Optional programme description.
    pub description: Option<String>,
    /// Start instant, UTC seconds since the epoch.
    pub start: i64,
    /// End instant, UTC seconds since the epoch, exclusive.
    pub end: i64,
    /// Optional genre.
    pub category: Option<String>,
    /// Optional icon URL.
    pub icon_url: Option<String>,
}

impl View for EpgProgram {
    type V = ProgramView;

    open spec fn view(&self) -> ProgramView {
        ProgramView {
            id: self.id@,
            channel_id: self.channel_id@,
            title: self.title@,
            description: self.description.deep_view(),
            start: self.start as int,
            end: self.end as int,
            category: self.category.deep_view(),
            icon_url: self.icon_url.deep_view(),
        }
    }
}

impl DeepView for EpgProgram {
    type V = ProgramView;

    open spec fn deep_view(&self) -> ProgramView {
        self.view()
    }
}

/// Copy a programme, field by field.
pub fn clone_program(p: &EpgProgram) -> (r: EpgProgram)
    ensures
        r@ == p@,
{
    EpgProgram {
        id: p.id.clone(),
        channel_id: p.channel_id.clone(),
        title: p.title.clone(),
        description: clone_opt_string(&p.description),
        start: p.start,
        end: p.end,
        category: clone_opt_string(&p.category),
        icon_url: clone_opt_string(&p.icon_url),
    }
}

/// Copy an optional string.
pub fn clone_opt_string(s: &Option<String>) -> (r: Option<String>)
    ensures
        r.deep_view() == s.deep_view(),
{
    match s {
        Some(v) => Some(v.clone()),
        None => None,
    }
}

/// Mathematical view of one channel's schedule.
pub struct ScheduleView {
    pub channel_id: Seq<char>,
    pub programs: Seq<ProgramView>,
}

/// The schedule for a single channel: its programmes, sorted ascending
/// by start time after every bulk update.
#[derive(Debug)]
pub struct EpgSchedule {
    /// The XMLTV channel ID.
    pub channel_id: String,
    /// Programmes for this channel.
    pub programs: Vec<EpgProgram>,
}

impl View for EpgSchedule {
    type V = ScheduleView;

    open spec fn view(&self) -> ScheduleView {
        ScheduleView { channel_id: self.channel_id@, programs: self.programs.deep_view() }
    }
}

/// Copy a schedule, programme by programme.
pub fn clone_schedule(s: &EpgSchedule) -> (r: EpgSchedule)
    ensures
        r@ == s@,
{
    let mut programs: Vec<EpgProgram> = Vec::new();
    let n = s.programs.len();
    let mut i: usize = 0;
    while i < n
        invariant
            0 <= i <= n,
            n == s.programs@.len(),
            programs@.len() == i,
            forall|j: int| 0 <= j < i ==> #[trigger] programs@[j]@ == s.programs@[j]@,
        decreases n - i,
    {
        programs.push(clone_program(&s.programs[i]));
        i = i + 1;
    }
    proof {
        assert(programs.deep_view() =~= s.programs.deep_view());
    }
    EpgSchedule { channel_id: s.channel_id.clone(), programs }
}

/// Programmes ordered by non-decreasing start time.
pub open spec fn sorted_by_start(ps: Seq<ProgramView>) -> bool {
    forall|i: int, j: int| 0 <= i < j < ps.len() ==> #[trigger] ps[i].start <= #[trigger] ps[j].start
}

/// Every schedule in a map is sorted by start time.
pub open spec fn all_sorted(m: Map<Seq<char>, ScheduleView>) -> bool {
    forall|k: Seq<char>| #[trigger] m.contains_key(k) ==> sorted_by_start(m[k].programs)
}

/// Insert a programme into a sorted sequence, after every entry whose start
/// is not later: a stable insertion.
pub open spec fn insert_sorted(p: ProgramView, s: Seq<ProgramView>) -> Seq<ProgramView>
    decreases s.len(),
{
    if s.len() == 0 {
        seq![p]
    } else if p.start < s[0].start {
        seq![p] + s
    } else {
        seq![s[0]] + insert_sorted(p, s.drop_first())
    }
}

/// Sort programmes by start time: a stable insertion sort, taken left to
/// right.
pub open spec fn sort_programs_spec(s: Seq<ProgramView>) -> Seq<ProgramView>
    decreases s.len(),
{
    if s.len() == 0 {
        Seq::empty()
    } else {
        insert_sorted(s.last(), sort_programs_spec(s.drop_last()))
    }
}

pub proof fn lemma_insert_sorted_properties(p: ProgramView, s: Seq<ProgramView>)
    requires
        sorted_by_start(s),
    ensures
        sorted_by_start(insert_sorted(p, s)),
        insert_sorted(p, s).to_multiset() =~= s.to_multiset().insert(p),
        insert_sorted(p, s).len() == s.len() + 1,
    decreases s.len(),
{
    broadcast use vstd::seq_lib::group_seq_properties;

    let r = insert_sorted(p, s);
    if s.len() == 0 {
        assert(seq![p].to_multiset() =~= Seq::<ProgramView>::empty().to_multiset().insert(p)) by {
            assert(seq![p] =~= Seq::<ProgramView>::empty().push(p));
        }
    } else if p.start < s[0].start {
        assert(r =~= s.insert(0, p));
        assert(sorted_by_start(r)) by {
            assert forall|i: int, j: int| 0 <= i < j < r.len() implies r[i].start
                <= r[j].start by {
                if i > 0 {
                    assert(r[i] == s[i - 1] && r[j] == s[j - 1]);
                }
            }
        }
        assert(r.to_multiset() =~= s.to_multiset().insert(p));
    } else {
        let df = s.drop_first();
        assert(sorted_by_start(df)) by {
            assert forall|i: int, j: int| 0 <= i < j < df.len() implies df[i].start
                <= df[j].start by {
                assert(df[i] == s[i + 1] && df[j] == s[j + 1]);
            }
        }
        lemma_insert_sorted_properties(p, df);
        let rest = insert_sorted(p, df);
        assert(r =~= seq![s[0]] + rest);
        // s[0] precedes everything in rest: rest holds p and the tail of s.
        assert(sorted_by_start(r)) by {
            assert forall|i: int, j: int| 0 <= i < j < r.len() implies r[i].start
                <= r[j].start by {
                if i == 0 {
                    // r[j] is p or some s[k] with k >= 1
                    assert(rest.to_multiset().contains(rest[j - 1]));
                    assert(df.to_multiset().insert(p).contains(rest[j - 1]));
                    if rest[j - 1] != p {
                        assert(df.to_multiset().contains(rest[j - 1]));
                        assert(df.contains(rest[j - 1]));
                        let k = choose|k: int| 0 <= k < df.len() && df[k] == rest[j - 1];
                        assert(df[k] == s[k + 1]);
                        assert(s[0].start <= s[k + 1].start);
                    }
                } else {
                    assert(r[i] == rest[i - 1] && r[j] == rest[j - 1]);
                }
            }
        }
        assert(r.to_multiset() =~= s.to_multiset().insert(p)) by {
            assert(s =~= seq![s[0]] + df);
            vstd::seq_lib::lemma_multiset_commutative(seq![s[0]], df);
            vstd::seq_lib::lemma_multiset_commutative(seq![s[0]], rest);
            assert(s.to_multiset() =~= seq![s[0]].to_multiset().add(df.to_multiset()));
            assert(r.to_multiset() =~= seq![s[0]].to_multiset().add(rest.to_multiset()));
        }
    }
}

/// The sorted image of any programme sequence is sorted and holds exactly
/// the same programmes.
pub proof fn lemma_sort_programs_spec(s: Seq<ProgramView>)
    ensures
        sorted_by_start(sort_programs_spec(s)),
        sort_programs_spec(s).to_multiset() =~= s.to_multiset(),
        sort_programs_spec(s).len() == s.len(),
    decreases s.len(),
{
    broadcast use vstd::seq_lib::group_seq_properties;

    if s.len() > 0 {
        lemma_sort_programs_spec(s.drop_last());
        lemma_insert_sorted_properties(s.last(), sort_programs_spec(s.drop_last()));
        assert(s =~= s.drop_last().push(s.last()));
        assert(s.to_multiset() =~= s.drop_last().to_multiset().insert(s.last()));
    }
}

proof fn lemma_insert_at_pos(p: ProgramView, s: Seq<ProgramView>, k: int)
    requires
        0 <= k <= s.len(),
        forall|j: int| 0 <= j < k ==> #[trigger] s[j].start <= p.start,
        k < s.len() ==> s[k].start > p.start,
    ensures
        insert_sorted(p, s) =~= s.take(k) + seq![p] + s.skip(k),
    decreases s.len(),
{
    if s.len() == 0 {
    } else if p.start < s[0].start {
        assert(k == 0);
    } else {
        assert(s[0].start <= p.start);
        assert(k > 0);
        let df = s.drop_first();
        lemma_insert_at_pos(p, df, k - 1);
        assert(df.take(k - 1) =~= s.take(k).drop_first());
        assert(df.skip(k - 1) =~= s.skip(k));
        assert(seq![s[0]] + (df.take(k - 1) + seq![p] + df.skip(k - 1)) =~= s.take(k) + seq![p]
            + s.skip(k));
    }
}

/// Sort a programme vector in place by start time, stably.
pub fn sort_programs(v: &mut Vec<EpgProgram>)
    ensures
        final (v).deep_view() == sort_programs_spec(old(v).deep_view()),
        sorted_by_start(final (v).deep_view()),
{
    proof {
        lemma_sort_programs_spec(old(v).deep_view());
    }
    let n = v.len();
    let mut out: Vec<EpgProgram> = Vec::new();
    let mut i: usize = 0;
    while i < n
        invariant
            0 <= i <= n,
            n == v@.len(),
            v@ == old(v)@,
            out.deep_view() == sort_programs_spec(old(v).deep_view().take(i as int)),
            sorted_by_start(out.deep_view()),
        decreases n - i,
    {
        let p = clone_program(&v[i]);
        let ghost pre = out.deep_view();
        // find the insertion point: after every entry starting no later
        let m = out.len();
        let mut k: usize = 0;
        while k < m && out[k].start <= p.start
            invariant
                0 <= k <= m,
                m == out@.len(),
                out.deep_view().len() == m,
                forall|j: int| 0 <= j < out.deep_view().len() ==> #[trigger] out.deep_view()[j]
                    == out@[j]@,
                forall|j: int| 0 <= j < k ==> #[trigger] out.deep_view()[j].start <= p@.start,
            decreases m - k,
        {
            k = k + 1;
        }
        out.insert(k, p);
        proof {
            lemma_insert_at_pos(p@, pre, k as int);
            assert(out.deep_view() =~= pre.take(k as int) + seq![p@] + pre.skip(k as int)) by {
                assert forall|j: int| 0 <= j < out.deep_view().len() implies out.deep_view()[j] == (
                pre.take(k as int) + seq![p@] + pre.skip(k as int))[j] by {
                    if j < k {
                        assert(out@[j]@ == pre[j]);
                    } else if j > k {
                        assert(out@[j]@ == pre[j - 1]);
                    }
                }
            }
            lemma_insert_sorted_properties(p@, pre);
            assert(old(v).deep_view().take(i + 1 as int).drop_last() =~= old(v).deep_view().take(
                i as int,
            ));
            assert(old(v).deep_view().take(i + 1 as int).last() == p@);
        }
        i = i + 1;
    }
    proof {
        assert(old(v).deep_view().take(n as int) =~= old(v).deep_view());
    }
    *v = out;
}

/// Mathematical view of a now/next answer.
pub struct NowNextView {
    pub channel_id: Seq<char>,
    pub now: Option<ProgramView>,
    pub next: Option<ProgramView>,
}

/// Answer to a now/next query: the currently airing programme, if any,
/// and the one after it.
#[derive(Debug)]
pub struct EpgNowNext {
    /// The XMLTV channel ID.
    pub channel_id: String,
    /// The currently airing programme, if any.
    pub now: Option<EpgProgram>,
    /// The next programme, if any.
    pub next: Option<EpgProgram>,
}

impl View for EpgNowNext {
    type V = NowNextView;

    open spec fn view(&self) -> NowNextView {
        NowNextView {
            channel_id: self.channel_id@,
            now: match self.now {
                Some(p) => Some(p@),
                None => None,
            },
            next: match self.next {
                Some(p) => Some(p@),
                None => None,
            },
        }
    }
}

/// One linear scan of a sorted programme list, from position `i`: the first
/// entry whose half-open interval contains `now` is the current one and its
/// successor the next; otherwise the first entry starting after `now` is
/// the next, with no current. The scan stops at the first match.
pub open spec fn spec_now_next(ps: Seq<ProgramView>, i: int, now: int) -> (Option<ProgramView>,
    Option<ProgramView>,
)
    decreases ps.len() - i,
{
    if i < 0 || i >= ps.len() {
        (None, None)
    } else if ps[i].start <= now && ps[i].end > now {
        (
            Some(ps[i]),
            if i + 1 < ps.len() {
                Some(ps[i + 1])
            } else {
                None
            },
        )
    } else if ps[i].start > now {
        (None, Some(ps[i]))
    } else {
        spec_now_next(ps, i + 1, now)
    }
}

/// If the scan reports a current programme, its interval contains `now`;
/// if it reports none and the list is sorted, no programme's interval
/// contains `now`.
pub proof fn lemma_now_next_current(ps: Seq<ProgramView>, i: int, now: int)
    requires
        sorted_by_start(ps),
        0 <= i <= ps.len(),
        forall|k: int| 0 <= k < i ==> !(#[trigger] ps[k].start <= now && ps[k].end > now),
    ensures
        match spec_now_next(ps, i, now).0 {
            Some(c) => c.start <= now && c.end > now,
            None => forall|k: int|
                0 <= k < ps.len() ==> !(#[trigger] ps[k].start <= now && ps[k].end > now),
        },
    decreases ps.len() - i,
{
    if i >= ps.len() {
    } else if ps[i].start <= now && ps[i].end > now {
    } else if ps[i].start > now {
        assert forall|k: int| 0 <= k < ps.len() implies !(#[trigger] ps[k].start <= now
            && ps[k].end > now) by {
            if k >= i {
                assert(ps[k].start >= ps[i].start);
            }
        }
    } else {
        lemma_now_next_current(ps, i + 1, now);
    }
}

/// In-memory cache of parsed guide data, populated on demand per channel.
/// Entries are replaced wholesale on merge and never removed.
#[derive(Debug)]
pub struct EpgCache {
    /// Map from XMLTV channel ID to its schedule.
    pub schedules: KvMap<EpgSchedule>,
    /// When the cache was last written to, in seconds since the epoch.
    pub last_updated: Option<u64>,
}

impl EpgCache {
    /// Well-formedness of the underlying map.
    pub open spec fn wf(&self) -> bool {
        self.schedules.wf()
    }

    /// Create a new empty cache.
    pub fn new() -> (r: Self)
        ensures
            r.wf(),
            r.schedules@ == Map::<Seq<char>, ScheduleView>::empty(),
            r.schedules.spec_len() == 0,
            r.last_updated is None,
    {
        EpgCache { schedules: KvMap::new(), last_updated: None }
    }

    /// Look up the cached schedule for a channel. A pure read: no fetch.
    pub fn get_schedule(&self, channel_id: &str) -> (r: Option<&EpgSchedule>)
        requires
            self.wf(),
        ensures
            match r {
                Some(s) => self.schedules@.contains_key(channel_id@) && s@
                    == self.schedules@[channel_id@],
                None => !self.schedules@.contains_key(channel_id@),
            },
    {
        self.schedules.get(channel_id)
    }

    /// Find the current and next programme for a channel at instant `now`.
    /// Returns `None` exactly when the channel is unknown to the cache;
    /// a known channel with nothing airing yields empty fields instead.
    pub fn get_now_next(&self, channel_id: &str, now: i64) -> (r: Option<EpgNowNext>)
        requires
            self.wf(),
        ensures
            r is Some <==> self.schedules@.contains_key(channel_id@),
            r is Some ==> {
                let nn = (r->0)@;
                let scan = spec_now_next(self.schedules@[channel_id@].programs, 0, now as int);
                &&& nn.channel_id == channel_id@
                &&& nn.now == scan.0
                &&& nn.next == scan.1
            },
    {
        let sched = match self.schedules.get(channel_id) {
            Some(s) => s,
            None => {
                return None;
            },
        };
        let ghost ps = sched@.programs;
        let n = sched.programs.len();
        let mut i: usize = 0;
        while i < n
            invariant
                0 <= i <= n,
                n == sched.programs@.len(),
                ps == sched@.programs,
                ps.len() == n,
                self.wf(),
                self.schedules@.contains_key(channel_id@),
                sched@ == self.schedules@[channel_id@],
                spec_now_next(ps, 0, now as int) == spec_now_next(ps, i as int, now as int),
                forall|j: int| 0 <= j < ps.len() ==> #[trigger] ps[j] == sched.programs@[j]@,
            decreases n - i,
        {
            let prog = &sched.programs[i];
            if prog.start <= now && prog.end > now {
                let current = Some(clone_program(prog));
                let next = if i + 1 < n {
                    Some(clone_program(&sched.programs[i + 1]))
                } else {
                    None
                };
                let out = EpgNowNext { channel_id: channel_id.to_owned(), now: current, next };
                return Some(out);
            }
            if prog.start > now {
                let out = EpgNowNext {
                    channel_id: channel_id.to_owned(),
                    now: None,
                    next: Some(clone_program(prog)),
                };
                return Some(out);
            }
            i = i + 1;
        }
        let out = EpgNowNext { channel_id: channel_id.to_owned(), now: None, next: None };
        Some(out)
    }

    /// Fold a batch of freshly parsed schedules into the cache: each
    /// channel's schedule is replaced wholesale by the new one, and the
    /// cache's timestamp is set to the merge time. Sortedness of every
    /// stored schedule is preserved.
    pub fn merge_schedules(&mut self, fetched: &KvMap<EpgSchedule>, now: u64)
        requires
            old(self).wf(),
            fetched.wf(),
        ensures
            final (self).wf(),
            final (self).schedules@ =~= old(self).schedules@.union_prefer_right(fetched@),
            final (self).last_updated == Some(now),
            all_sorted(old(self).schedules@) && all_sorted(fetched@) ==> all_sorted(
                final (self).schedules@,
            ),
    {
        let n = fetched.len();
        let ghost keys = fetched.spec_keys();
        let mut i: usize = 0;
        while i < n
            invariant
                0 <= i <= n,
                self.wf(),
                fetched.wf(),
                n == fetched.spec_len(),
                keys == fetched.spec_keys(),
                keys.len() == n,
                keys.to_set() =~= fetched@.dom(),
                self.last_updated == old(self).last_updated,
                forall|k: Seq<char>|
                    #[trigger] keys.take(i as int).contains(k) ==> self.schedules@.contains_key(k)
                        && self.schedules@[k] == fetched@[k],
                forall|k: Seq<char>|
                    !#[trigger] keys.take(i as int).contains(k) ==> (
                    self.schedules@.contains_key(k) == old(self).schedules@.contains_key(k) && (
                    self.schedules@.contains_key(k) ==> self.schedules@[k] == old(
                        self,
                    ).schedules@[k])),
            decreases n - i,
        {
            let key = fetched.key_at(i);
            let val = fetched.val_at(i);
            let key_copy = key.clone();
            let val_copy = clone_schedule(val);
            let ghost pre = self.schedules@;
            self.schedules.insert(key_copy, val_copy);
            proof {
                assert(self.schedules@ == pre.insert(keys[i as int], fetched@[keys[i as int]]));
                assert forall|k: Seq<char>| #[trigger]
                keys.take(i + 1 as int).contains(k) implies self.schedules@.contains_key(k)
                    && self.schedules@[k] == fetched@[k] by {
                    assert(keys.take(i + 1 as int)[i as int] == keys[i as int]);
                    if k != keys[i as int] {
                        let j = choose|j: int|
                            0 <= j < keys.take(i + 1 as int).len() && #[trigger] keys.take(
                                i + 1 as int,
                            )[j] == k;
                        assert(j != i);
                        assert(keys.take(i as int)[j] == k);
                        assert(keys.take(i as int).contains(k));
                    } else {
                        assert(keys.take(i + 1 as int).contains(keys[i as int]));
                        assert(self.schedules@.contains_key(k));
                    }
                }
                assert forall|k: Seq<char>| !#[trigger]
                keys.take(i + 1 as int).contains(k) implies (self.schedules@.contains_key(k)
                    == old(self).schedules@.contains_key(k) && (self.schedules@.contains_key(k)
                    ==> self.schedules@[k] == old(self).schedules@[k])) by {
                    assert(keys.take(i + 1 as int)[i as int] == keys[i as int]);
                    assert(k != keys[i as int]);
                    assert forall|j: int| 0 <= j < i implies keys.take(i as int)[j] != k by {
                        assert(keys.take(i + 1 as int)[j] == keys.take(i as int)[j]);
                    }
                    assert(!keys.take(i as int).contains(k));
                }
            }
            i = i + 1;
        }
        self.last_updated = Some(now);
        proof {
            assert(keys.take(n as int) =~= keys);
            let u = old(self).schedules@.union_prefer_right(fetched@);
            assert forall|k: Seq<char>|
                #![trigger self.schedules@.contains_key(k)]
                #![trigger u.contains_key(k)]
                self.schedules@.contains_key(k) == u.contains_key(k) && (
            self.schedules@.contains_key(k) ==> self.schedules@[k] == u[k]) by {
                assert(keys.to_set().contains(k) == keys.contains(k));
                if fetched@.contains_key(k) {
                    assert(keys.contains(k));
                    assert(keys.take(n as int).contains(k));
                } else {
                    assert(!keys.contains(k));
                    assert(!keys.take(n as int).contains(k));
                }
            }
            assert(self.schedules@.dom() =~= u.dom()) by {
                assert forall|k: Seq<char>|
                    #![trigger self.schedules@.dom().contains(k)]
                    #![trigger u.dom().contains(k)]
                    self.schedules@.dom().contains(k) == u.dom().contains(k) by {
                    assert(self.schedules@.contains_key(k) == u.contains_key(k));
                }
            }
            assert(self.schedules@ =~= u);
        }
    }

    /// Record a write instant on the cache.
    pub fn touch(&mut self, now: u64)
        ensures
            final (self).last_updated == Some(now),
            final (self).schedules == old(self).schedules,
    {
        self.last_updated = Some(now);
    }
}

/// Merging the same batch twice leaves the cache exactly as merging it
/// once: schedules are replaced wholesale, never appended.
pub proof fn lemma_merge_idempotent(
    m: Map<Seq<char>, ScheduleView>,
    g: Map<Seq<char>, ScheduleView>,
)
    ensures
        m.union_prefer_right(g).union_prefer_right(g) =~= m.union_prefer_right(g),
{
}

} // verus!
