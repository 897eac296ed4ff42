use vstd::prelude::*;

verus! {

/// A unit of crawl work: a URL, the origin used to resolve links found under
/// it, and its distance in hops from the nearest seed (seeds have depth 1).
#[derive(Debug)]
pub struct Link {
    pub url: String,
    pub base: String,
    pub depth: usize,
}

/// The mathematical value of a `Link`.
pub struct LinkView {
    pub url: Seq<char>,
    pub base: Seq<char>,
    pub depth: nat,
}

impl View for Link {
    type V = LinkView;

    open spec fn view(&self) -> LinkView {
        LinkView { url: self.url@, base: self.base@, depth: self.depth as nat }
    }
}

impl Link {
    /// A copy of this link.
    pub fn duplicate(&self) -> (r: Link)
        ensures
            r@ == self@,
    {
        Link { url: self.url.clone(), base: self.base.clone(), depth: self.depth }
    }
}

/// What became of a submitted link.
#[derive(Debug, Clone, Copy, PartialEq, Eq)]
pub enum SubmitOutcome {
    /// The URL was new: it is now recorded as visited and waits in the queue.
    Accepted,
    /// The URL had been submitted before; nothing changed.
    Duplicate,
    /// The URL is new but the queue is at capacity; nothing changed, and the
    /// caller waits until a worker takes an item, then submits again.
    Full,
    /// The frontier was shut down; nothing changed.
    Closed,
}

/// What a worker gets when it asks for work.
#[derive(Debug)]
pub enum TakeOutcome {
    /// A link to process; the worker holds it until it calls `complete`.
    Next(Link),
    /// Nothing is pending, but a worker still holds an item that may yield
    /// more: wait for a submission or a completion, then ask again.
    Wait,
    /// Nothing is pending and nothing is held: the crawl is over.
    Drained,
}

/// The mathematical value of a frontier.
pub struct FrontierView {
    /// Every URL ever accepted.
    pub visited: Set<Seq<char>>,
    /// Links awaiting a worker, oldest first.
    pub pending: Seq<LinkView>,
    /// Links handed to workers and not yet completed.
    pub checked_out: nat,
    /// The most links that may be pending at once.
    pub capacity: nat,
    /// The deepest link that is ever handed to a worker.
    pub max_depth: nat,
    /// Whether submissions are refused.
    pub closed: bool,
}

/// One operation on a frontier, for stating what holds over runs of them.
pub enum FrontierOp {
    Submit(LinkView),
    Take,
    Complete,
}

/// The frontier's own invariant: pending URLs are distinct and all visited,
/// and the queue stays within its capacity.
pub open spec fn frontier_wf(m: FrontierView) -> bool {
    &&& m.capacity > 0
    &&& m.pending.len() <= m.capacity
    &&& forall|i: int| 0 <= i < m.pending.len() ==> m.visited.contains(#[trigger] m.pending[i].url)
    &&& forall|i: int, j: int|
        0 <= i < j < m.pending.len() ==> #[trigger] m.pending[i].url != #[trigger] m.pending[j].url
}

/// The outcome of submitting `l`: a duplicate is recognised first, then a
/// shut-down frontier, then a full queue.
pub open spec fn submit_outcome(m: FrontierView, l: LinkView) -> SubmitOutcome {
    if m.visited.contains(l.url) {
        SubmitOutcome::Duplicate
    } else if m.closed {
        SubmitOutcome::Closed
    } else if m.pending.len() >= m.capacity {
        SubmitOutcome::Full
    } else {
        SubmitOutcome::Accepted
    }
}

/// The frontier after submitting `l`.
pub open spec fn after_submit(m: FrontierView, l: LinkView) -> FrontierView {
    if submit_outcome(m, l) == SubmitOutcome::Accepted {
        FrontierView { visited: m.visited.insert(l.url), pending: m.pending.push(l), ..m }
    } else {
        m
    }
}

/// The pending links once those deeper than `max_depth` at the front have
/// been dropped.
pub open spec fn shed(p: Seq<LinkView>, max_depth: nat) -> Seq<LinkView>
    decreases p.len(),
{
    if p.len() == 0 {
        p
    } else if p[0].depth <= max_depth {
        p
    } else {
        shed(p.drop_first(), max_depth)
    }
}

/// The link that the next `take` hands out, if any.
pub open spec fn next_link(m: FrontierView) -> Option<LinkView> {
    let p = shed(m.pending, m.max_depth);
    if p.len() > 0 {
        Some(p[0])
    } else {
        None
    }
}

/// The frontier after a `take`.
pub open spec fn after_take(m: FrontierView) -> FrontierView {
    let p = shed(m.pending, m.max_depth);
    if p.len() > 0 {
        FrontierView { pending: p.drop_first(), checked_out: m.checked_out + 1, ..m }
    } else {
        FrontierView { pending: p, ..m }
    }
}

/// The frontier after a worker reports that it finished an item.
pub open spec fn after_complete(m: FrontierView) -> FrontierView {
    if m.checked_out > 0 {
        FrontierView { checked_out: (m.checked_out - 1) as nat, ..m }
    } else {
        m
    }
}

/// The frontier after `op`.
pub open spec fn after_op(m: FrontierView, op: FrontierOp) -> FrontierView {
    match op {
        FrontierOp::Submit(l) => after_submit(m, l),
        FrontierOp::Take => after_take(m),
        FrontierOp::Complete => after_complete(m),
    }
}

/// Whether `op`, applied to `m`, accepts the URL `u`.
pub open spec fn op_accepts(m: FrontierView, op: FrontierOp, u: Seq<char>) -> bool {
    match op {
        FrontierOp::Submit(l) => l.url == u && submit_outcome(m, l) == SubmitOutcome::Accepted,
        _ => false,
    }
}

/// Whether `op`, applied to `m`, submits the URL `u` and is told it is a duplicate.
pub open spec fn op_rejects(m: FrontierView, op: FrontierOp, u: Seq<char>) -> bool {
    match op {
        FrontierOp::Submit(l) => l.url == u && submit_outcome(m, l) == SubmitOutcome::Duplicate,
        _ => false,
    }
}

/// Whether `op` submits the URL `u`.
pub open spec fn op_submits(op: FrontierOp, u: Seq<char>) -> bool {
    match op {
        FrontierOp::Submit(l) => l.url == u,
        _ => false,
    }
}

/// Whether `op`, applied to `m`, hands a link with URL `u` to a worker.
pub open spec fn op_hands_out(m: FrontierView, op: FrontierOp, u: Seq<char>) -> bool {
    match op {
        FrontierOp::Take => match next_link(m) {
            Some(l) => l.url == u,
            None => false,
        },
        _ => false,
    }
}

/// How many operations of `ops`, run in order from `m`, accept `u`.
pub open spec fn accept_count(m: FrontierView, ops: Seq<FrontierOp>, u: Seq<char>) -> nat
    decreases ops.len(),
{
    if ops.len() == 0 {
        0
    } else {
        (if op_accepts(m, ops[0], u) { 1nat } else { 0nat }) + accept_count(
            after_op(m, ops[0]),
            ops.drop_first(),
            u,
        )
    }
}

/// How many operations of `ops`, run in order from `m`, submit `u` and are
/// told it is a duplicate.
pub open spec fn reject_count(m: FrontierView, ops: Seq<FrontierOp>, u: Seq<char>) -> nat
    decreases ops.len(),
{
    if ops.len() == 0 {
        0
    } else {
        (if op_rejects(m, ops[0], u) { 1nat } else { 0nat }) + reject_count(
            after_op(m, ops[0]),
            ops.drop_first(),
            u,
        )
    }
}

/// How many operations of `ops` submit `u`.
pub open spec fn submit_count(ops: Seq<FrontierOp>, u: Seq<char>) -> nat
    decreases ops.len(),
{
    if ops.len() == 0 {
        0
    } else {
        (if op_submits(ops[0], u) { 1nat } else { 0nat }) + submit_count(ops.drop_first(), u)
    }
}

/// How many operations of `ops`, run in order from `m`, hand out `u`.
pub open spec fn hand_out_count(m: FrontierView, ops: Seq<FrontierOp>, u: Seq<char>) -> nat
    decreases ops.len(),
{
    if ops.len() == 0 {
        0
    } else {
        (if op_hands_out(m, ops[0], u) { 1nat } else { 0nat }) + hand_out_count(
            after_op(m, ops[0]),
            ops.drop_first(),
            u,
        )
    }
}

/// The frontier after running `ops` in order from `m`.
pub open spec fn run(m: FrontierView, ops: Seq<FrontierOp>) -> FrontierView
    decreases ops.len(),
{
    if ops.len() == 0 {
        m
    } else {
        run(after_op(m, ops[0]), ops.drop_first())
    }
}

/// Whether a link with URL `u` can still be handed out from `m`: it waits in
/// the queue, or it was never accepted.
pub open spec fn may_hand_out(m: FrontierView, u: Seq<char>) -> bool {
    ||| !m.visited.contains(u)
    ||| exists|i: int| 0 <= i < m.pending.len() && m.pending[i].url == u
}

/// What `shed` keeps is the tail of what it was given.
pub proof fn lemma_shed_is_suffix(p: Seq<LinkView>, d: nat)
    ensures
        shed(p, d).len() <= p.len(),
        forall|i: int|
            0 <= i < shed(p, d).len() ==> #[trigger] shed(p, d)[i] == p[i + p.len() - shed(p, d).len()],
    decreases p.len(),
{
    if p.len() > 0 && p[0].depth > d {
        lemma_shed_is_suffix(p.drop_first(), d);
    }
}

/// The front of what `shed` keeps is within the depth it was given.
pub proof fn lemma_shed_front_within(p: Seq<LinkView>, d: nat)
    ensures
        shed(p, d).len() > 0 ==> shed(p, d)[0].depth <= d,
    decreases p.len(),
{
    if p.len() > 0 && p[0].depth > d {
        lemma_shed_front_within(p.drop_first(), d);
    }
}

/// Depth bound: no link deeper than the frontier's maximum depth is ever
/// handed to a worker, in any run of operations, and no operation changes
/// that maximum.
pub proof fn lemma_hand_out_within_depth(m: FrontierView, ops: Seq<FrontierOp>)
    ensures
        run(m, ops).max_depth == m.max_depth,
        forall|k: int|
            0 <= k < ops.len() ==> match next_link(#[trigger] run(m, ops.take(k))) {
                Some(l) => l.depth <= m.max_depth,
                None => true,
            },
    decreases ops.len(),
{
    lemma_shed_front_within(m.pending, m.max_depth);
    if ops.len() > 0 {
        let m1 = after_op(m, ops[0]);
        let rest = ops.drop_first();
        lemma_hand_out_within_depth(m1, rest);
        assert forall|k: int| 0 <= k < ops.len() implies match next_link(
            #[trigger] run(m, ops.take(k)),
        ) {
            Some(l) => l.depth <= m.max_depth,
            None => true,
        } by {
            if k == 0 {
                assert(ops.take(0) =~= Seq::<FrontierOp>::empty());
            } else {
                assert(ops.take(k).drop_first() =~= rest.take(k - 1));
                assert(ops.take(k)[0] == ops[0]);
                assert(run(m, ops.take(k)) == run(m1, rest.take(k - 1)));
            }
        }
    }
}

/// Every operation keeps the frontier's invariant, and no URL ever leaves the
/// visited set.
pub proof fn lemma_op_keeps_wf(m: FrontierView, op: FrontierOp)
    requires
        frontier_wf(m),
    ensures
        frontier_wf(after_op(m, op)),
        m.visited.subset_of(after_op(m, op).visited),
{
    let m1 = after_op(m, op);
    match op {
        FrontierOp::Take => {
            lemma_shed_is_suffix(m.pending, m.max_depth);
            let p = shed(m.pending, m.max_depth);
            let off = m.pending.len() - p.len();
            assert forall|i: int| 0 <= i < m1.pending.len() implies m1.visited.contains(
                #[trigger] m1.pending[i].url,
            ) by {
                if p.len() > 0 {
                    assert(m1.pending[i] == p[i + 1]);
                    assert(p[i + 1] == m.pending[i + 1 + off]);
                } else {
                    assert(m1.pending[i] == p[i]);
                }
            }
            assert forall|i: int, j: int| 0 <= i < j < m1.pending.len() implies #[trigger] m1.pending[i].url
                != #[trigger] m1.pending[j].url by {
                if p.len() > 0 {
                    assert(m1.pending[i] == m.pending[i + 1 + off]);
                    assert(m1.pending[j] == m.pending[j + 1 + off]);
                } else {
                    assert(m1.pending[i] == m.pending[i + off]);
                    assert(m1.pending[j] == m.pending[j + off]);
                }
            }
        },
        FrontierOp::Submit(l) => {
            if submit_outcome(m, l) == SubmitOutcome::Accepted {
                assert forall|i: int| 0 <= i < m1.pending.len() implies m1.visited.contains(
                    #[trigger] m1.pending[i].url,
                ) by {
                    if i < m.pending.len() {
                        assert(m1.pending[i] == m.pending[i]);
                    }
                }
                assert forall|i: int, j: int| 0 <= i < j < m1.pending.len() implies #[trigger] m1.pending[i].url
                    != #[trigger] m1.pending[j].url by {
                    assert(m1.pending[i] == m.pending[i]);
                    if j < m.pending.len() {
                        assert(m1.pending[j] == m.pending[j]);
                    } else {
                        assert(m.visited.contains(m.pending[i].url));
                    }
                }
            }
        },
        FrontierOp::Complete => {},
    }
}

/// At-most-once acceptance: in any run of operations, a URL is accepted at
/// most once, and not at all if it was already visited; once it is visited,
/// every later submission of it is reported as a duplicate; and if it was not
/// visited at the start and some submission of it is reported as a duplicate,
/// exactly one submission accepted it.
pub proof fn lemma_accepted_at_most_once(m: FrontierView, ops: Seq<FrontierOp>, u: Seq<char>)
    ensures
        accept_count(m, ops, u) <= (if m.visited.contains(u) { 0nat } else { 1nat }),
        m.visited.contains(u) ==> reject_count(m, ops, u) == submit_count(ops, u),
        !m.visited.contains(u) && reject_count(m, ops, u) > 0 ==> accept_count(m, ops, u) == 1,
    decreases ops.len(),
{
    if ops.len() > 0 {
        let m1 = after_op(m, ops[0]);
        lemma_accepted_at_most_once(m1, ops.drop_first(), u);
        if m.visited.contains(u) {
            assert(m1.visited.contains(u));
        }
        if op_accepts(m, ops[0], u) {
            assert(m1.visited.contains(u));
        } else if !m.visited.contains(u) {
            assert(!m1.visited.contains(u));
        }
    }
}

/// At-most-once visitation: from a well-formed frontier, in any run of
/// operations a URL is handed to a worker at most once, and not at all if it
/// was accepted before and no longer waits in the queue.
pub proof fn lemma_handed_out_at_most_once(m: FrontierView, ops: Seq<FrontierOp>, u: Seq<char>)
    requires
        frontier_wf(m),
    ensures
        hand_out_count(m, ops, u) <= (if may_hand_out(m, u) { 1nat } else { 0nat }),
        hand_out_count(m, ops, u) <= 1,
    decreases ops.len(),
{
    if ops.len() > 0 {
        let op = ops[0];
        let m1 = after_op(m, op);
        lemma_op_keeps_wf(m, op);
        lemma_handed_out_at_most_once(m1, ops.drop_first(), u);
        match op {
            FrontierOp::Take => {
                lemma_shed_is_suffix(m.pending, m.max_depth);
                let p = shed(m.pending, m.max_depth);
                let off = m.pending.len() - p.len();
                if may_hand_out(m1, u) && m.visited.contains(u) {
                    let i = choose|i: int| 0 <= i < m1.pending.len() && m1.pending[i].url == u;
                    if p.len() > 0 {
                        assert(m1.pending[i] == m.pending[i + 1 + off]);
                    } else {
                        assert(m1.pending[i] == m.pending[i + off]);
                    }
                }
                if op_hands_out(m, op, u) {
                    assert(p[0] == m.pending[off]);
                    assert(m.visited.contains(u));
                    if may_hand_out(m1, u) {
                        let i = choose|i: int| 0 <= i < m1.pending.len() && m1.pending[i].url == u;
                        assert(m1.pending[i] == m.pending[i + 1 + off]);
                    }
                }
            },
            FrontierOp::Submit(l) => {
                if may_hand_out(m1, u) && m.visited.contains(u) {
                    let i = choose|i: int| 0 <= i < m1.pending.len() && m1.pending[i].url == u;
                    if submit_outcome(m, l) == SubmitOutcome::Accepted && i == m.pending.len() {
                        assert(l.url == u);
                    } else {
                        assert(m1.pending[i] == m.pending[i]);
                    }
                }
            },
            FrontierOp::Complete => {},
        }
    }
}

/// A drained frontier stays drained: from a frontier with nothing pending and
/// nothing held, any run of takes and completions leaves it as it is, and each
/// take along the way finds it drained.
pub proof fn lemma_drained_stays_drained(m: FrontierView, ops: Seq<FrontierOp>)
    requires
        m.pending.len() == 0,
        m.checked_out == 0,
        forall|i: int| 0 <= i < ops.len() ==> !(#[trigger] ops[i] is Submit),
    ensures
        next_link(m) is None,
        run(m, ops) == m,
    decreases ops.len(),
{
    assert(shed(m.pending, m.max_depth) == m.pending);
    if ops.len() > 0 {
        assert(after_op(m, ops[0]) == m) by {
            assert(m.pending =~= Seq::<LinkView>::empty());
        }
        let rest = ops.drop_first();
        assert forall|i: int| 0 <= i < rest.len() implies !(#[trigger] rest[i] is Submit) by {
            assert(rest[i] == ops[i + 1]);
        }
        lemma_drained_stays_drained(m, rest);
    }
}

/// The crawl frontier: the record of every URL ever accepted, the bounded
/// queue of links awaiting a worker, and the count of links that workers
/// hold. Callers share it under a lock and block where an outcome says so.
pub struct URLQueue {
    visited: Vec<String>,
    pending: std::collections::VecDeque<Link>,
    checked_out: usize,
    capacity: usize,
    max_depth: usize,
    closed: bool,
}

impl View for URLQueue {
    type V = FrontierView;

    closed spec fn view(&self) -> FrontierView {
        FrontierView {
            visited: Set::new(
                |u: Seq<char>| exists|i: int| 0 <= i < self.visited@.len() && self.visited@[i]@ == u,
            ),
            pending: self.pending@.map_values(|l: Link| l@),
            checked_out: self.checked_out as nat,
            capacity: self.capacity as nat,
            max_depth: self.max_depth as nat,
            closed: self.closed,
        }
    }
}

impl URLQueue {
    /// The frontier's invariant, and room for the count of held links.
    pub closed spec fn wf(&self) -> bool {
        &&& frontier_wf(self@)
        &&& self.checked_out + self.pending@.len() <= self.visited@.len()
    }

    /// An empty, open frontier that hands out links up to `max_depth` and
    /// holds at most `queue_size` pending links.
    pub fn new(max_depth: usize, queue_size: usize) -> (r: URLQueue)
        requires
            queue_size > 0,
        ensures
            r.wf(),
            r@.visited.is_empty(),
            r@.pending.len() == 0,
            r@.checked_out == 0,
            r@.capacity == queue_size,
            r@.max_depth == max_depth,
            !r@.closed,
    {
        let r = URLQueue {
            visited: Vec::new(),
            pending: std::collections::VecDeque::new(),
            checked_out: 0,
            capacity: queue_size,
            max_depth,
            closed: false,
        };
        assert(r@.visited =~= Set::empty());
        assert(r@.pending =~= Seq::empty());
        r
    }

    /// Whether `url` has ever been accepted.
    pub fn is_visited(&self, url: &String) -> (r: bool)
        ensures
            r == self@.visited.contains(url@),
    {
        let mut i: usize = 0;
        while i < self.visited.len()
            invariant
                0 <= i <= self.visited@.len(),
                forall|j: int| 0 <= j < i ==> self.visited@[j]@ != url@,
            decreases self.visited@.len() - i,
        {
            if self.visited[i] == *url {
                assert(self@.visited.contains(url@));
                return true;
            }
            i = i + 1;
        }
        false
    }

    /// Submits `link`. The check for a duplicate and the record of the URL
    /// happen in one step, so of two submissions of one URL at most one is
    /// accepted. Depth is not looked at here.
    pub fn add_url(&mut self, link: &Link) -> (r: SubmitOutcome)
        requires
            old(self).wf(),
        ensures
            final(self).wf(),
            r == submit_outcome(old(self)@, link@),
            final(self)@ == after_submit(old(self)@, link@),
    {
        if self.is_visited(&link.url) {
            return SubmitOutcome::Duplicate;
        }
        if self.closed {
            return SubmitOutcome::Closed;
        }
        if self.pending.len() >= self.capacity {
            return SubmitOutcome::Full;
        }
        let ghost m = self@;
        let ghost vs = self.visited@;
        self.visited.push(link.url.clone());
        self.pending.push_back(link.duplicate());
        assert(self@.visited =~= m.visited.insert(link.url@)) by {
            assert forall|u: Seq<char>| self@.visited.contains(u) == m.visited.insert(
                link.url@,
            ).contains(u) by {
                if m.visited.contains(u) {
                    let i = choose|i: int| 0 <= i < vs.len() && vs[i]@ == u;
                    assert(self.visited@[i]@ == u);
                }
                if u == link.url@ {
                    assert(self.visited@[vs.len() as int]@ == u);
                }
                if self@.visited.contains(u) {
                    let i = choose|i: int|
                        0 <= i < self.visited@.len() && self.visited@[i]@ == u;
                    if i < vs.len() {
                        assert(vs[i]@ == u);
                    }
                }
            }
        }
        assert(self@.pending =~= m.pending.push(link@));
        SubmitOutcome::Accepted
    }

    /// Hands out the oldest pending link, after discarding those at its front
    /// that are deeper than the frontier's maximum depth. With nothing left,
    /// says whether workers still hold items (`Wait`) or not (`Drained`).
    pub fn get_next_link(&mut self) -> (r: TakeOutcome)
        requires
            old(self).wf(),
        ensures
            final(self).wf(),
            final(self)@ == after_take(old(self)@),
            match r {
                TakeOutcome::Next(l) => next_link(old(self)@) == Some(l@) && l@.depth
                    <= old(self)@.max_depth,
                TakeOutcome::Wait => next_link(old(self)@) is None && old(self)@.checked_out > 0,
                TakeOutcome::Drained => next_link(old(self)@) is None && old(self)@.checked_out
                    == 0,
            },
            r is Drained <==> final(self)@.pending.len() == 0 && final(self)@.checked_out == 0,
    {
        let ghost m = self@;
        while self.pending.len() > 0 && self.pending[0].depth > self.max_depth
            invariant
                self.wf(),
                shed(self@.pending, m.max_depth) == shed(m.pending, m.max_depth),
                self@.visited == m.visited,
                self@.checked_out == m.checked_out,
                self@.capacity == m.capacity,
                self@.max_depth == m.max_depth,
                self@.closed == m.closed,
            decreases self.pending@.len(),
        {
            let ghost before = self@.pending;
            let _ = self.pending.pop_front();
            assert(self@.pending =~= before.drop_first());
        }
        assert(self@.pending == shed(m.pending, m.max_depth));
        let _ = self.visited.len();
        match self.pending.pop_front() {
            Some(l) => {
                self.checked_out = self.checked_out + 1;
                proof {
                    let p = shed(m.pending, m.max_depth);
                    assert(self@.pending =~= p.drop_first());
                }
                TakeOutcome::Next(l)
            },
            None => {
                if self.checked_out == 0 {
                    TakeOutcome::Drained
                } else {
                    TakeOutcome::Wait
                }
            },
        }
    }

    /// Records that a worker finished an item it had taken.
    pub fn complete(&mut self)
        requires
            old(self).wf(),
            old(self)@.checked_out > 0,
        ensures
            final(self).wf(),
            final(self)@ == after_complete(old(self)@),
    {
        self.checked_out = self.checked_out - 1;
    }

    /// Shuts the frontier down: from now on every new URL is refused.
    pub fn close(&mut self)
        requires
            old(self).wf(),
        ensures
            final(self).wf(),
            final(self)@ == (FrontierView { closed: true, ..old(self)@ }),
    {
        self.closed = true;
    }

    /// How many links wait for a worker.
    pub fn pending_count(&self) -> (r: usize)
        ensures
            r == self@.pending.len(),
    {
        self.pending.len()
    }

    /// How many links workers hold.
    pub fn checked_out_count(&self) -> (r: usize)
        ensures
            r == self@.checked_out,
    {
        self.checked_out
    }
}

} // verus!
