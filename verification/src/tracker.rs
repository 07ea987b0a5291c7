//! The single-threaded aggregator: applies stage lifecycle events one at a
//! time and maintains the live tree of progress records.
use vstd::prelude::*;
use std::collections::HashMap;
use std::io::Write;
use crate::StageId;
use crate::ProgressReport;
use crate::VIRTUAL_ROOT;

verus! {

broadcast use vstd::std_specs::hash::group_hash_axioms;

/// One stage's progress record. A record is created by `BeginStage`,
/// mutated in place by later events, and never deleted while the
/// tracker lives; only child listings are pruned on completion.
#[derive(Debug, Clone)]
pub struct Progress {
    /// The stage this one was begun under; `VIRTUAL_ROOT` for a top-level stage.
    pub parent: StageId,
    /// The declared number of steps (or child stages) of this stage.
    pub total: usize,
    /// How many steps are done: one per `Progress` event on this stage and
    /// one per `EndStage` of a direct child.
    pub count: usize,
    /// The display name of the stage.
    pub name: String,
}

/// Adding one more completed unit. The count saturates at the top of
/// `usize` rather than wrap, so a completed count never decreases.
pub open spec fn bump(c: usize) -> usize {
    if c < usize::MAX { (c + 1) as usize } else { c }
}

fn bump_exec(c: usize) -> (r: usize)
    ensures
        r == bump(c),
{
    if c < usize::MAX { c + 1 } else { c }
}

/// `s` with every occurrence of `x` removed, order of the rest kept.
pub open spec fn without_id(s: Seq<usize>, x: usize) -> Seq<usize>
    decreases s.len(),
{
    if s.len() == 0 {
        Seq::empty()
    } else if s.last() == x {
        without_id(s.drop_last(), x)
    } else {
        without_id(s.drop_last(), x).push(s.last())
    }
}

/// The aggregated tree: a record per stage ever begun, and the ordered
/// list of currently-open children of each stage (insertion order is
/// display order).
#[derive(Clone)]
pub struct ProgressTracker {
    items: HashMap<usize, Progress>,
    children: HashMap<usize, Vec<usize>>,
}

impl ProgressTracker {
    /// All records ever begun, keyed by the raw stage id.
    pub closed spec fn records(self) -> Map<usize, Progress> {
        self.items@
    }

    /// Whether `p` currently has a child listing.
    pub closed spec fn has_kids(self, p: usize) -> bool {
        self.children@.contains_key(p)
    }

    /// The currently-open children of `p`, oldest first; empty when `p`
    /// has no listing.
    pub closed spec fn kids_of(self, p: usize) -> Seq<usize> {
        if self.children@.contains_key(p) {
            self.children@[p]@
        } else {
            Seq::empty()
        }
    }

    /// Tree consistency: every id listed as a child or referenced as a
    /// parent has a record, except the reserved virtual root; and ids
    /// grow strictly from parent to child (a stage is begun after its
    /// parent), which keeps the tree acyclic.
    pub open spec fn wf(self) -> bool {
        &&& forall|p: usize| #[trigger] self.has_kids(p)
            ==> p == VIRTUAL_ROOT || self.records().contains_key(p)
        &&& forall|p: usize, i: int| 0 <= i < self.kids_of(p).len()
            ==> (#[trigger] self.kids_of(p)[i]) > p
                && self.records().contains_key(self.kids_of(p)[i] as usize)
        &&& forall|id: usize| #[trigger] self.records().contains_key(id)
            ==> self.records()[id].parent.0 < id
                && (self.records()[id].parent.0 == VIRTUAL_ROOT
                    || self.records().contains_key(self.records()[id].parent.0))
    }

    /// A `BeginStage` for `id` under target `t` is admissible: the id is
    /// fresh (never reused, strictly after its parent) and the parent is
    /// the virtual root or a known stage.
    pub open spec fn begin_ok(self, t: usize, id: usize) -> bool {
        &&& id > t
        &&& !self.records().contains_key(id)
        &&& (t == VIRTUAL_ROOT || self.records().contains_key(t))
    }
}

/// The two trackers hold the same tree: the same records and the same
/// child listings.
pub open spec fn same_tree(pre: ProgressTracker, post: ProgressTracker) -> bool {
    &&& post.records() == pre.records()
    &&& forall|q: usize| (#[trigger] post.kids_of(q)) == pre.kids_of(q)
        && post.has_kids(q) == pre.has_kids(q)
}

/// How one event, aimed at `target`, takes the tracker from `pre` to
/// `post`. The meaning of `target` depends on the event: for
/// `BeginStage` it is the parent of the new stage, for `Progress` and
/// `EndStage` the stage itself. An event whose target (or, for
/// `BeginStage`, whose id) is not admissible leaves the tracker
/// unchanged.
pub open spec fn tracker_step(
    pre: ProgressTracker,
    post: ProgressTracker,
    target: usize,
    ev: ProgressReport,
) -> bool {
    match ev {
        ProgressReport::BeginStage { id, name, steps } => {
            if pre.begin_ok(target, id.0) {
                &&& post.records() == pre.records().insert(
                    id.0,
                    Progress { parent: StageId(target), total: steps, count: 0, name },
                )
                &&& post.has_kids(target)
                &&& post.kids_of(target) == pre.kids_of(target).push(id.0)
                &&& forall|q: usize| q != target
                    ==> (#[trigger] post.kids_of(q)) == pre.kids_of(q)
                        && post.has_kids(q) == pre.has_kids(q)
            } else {
                same_tree(pre, post)
            }
        },
        ProgressReport::Progress => {
            if pre.records().contains_key(target) {
                &&& post.records() == pre.records().insert(
                    target,
                    (Progress { count: bump(pre.records()[target].count), ..pre.records()[target] }),
                )
                &&& forall|q: usize| (#[trigger] post.kids_of(q)) == pre.kids_of(q)
                    && post.has_kids(q) == pre.has_kids(q)
            } else {
                same_tree(pre, post)
            }
        },
        ProgressReport::EndStage => {
            if pre.records().contains_key(target) {
                let p = pre.records()[target].parent.0;
                &&& post.records() == (if pre.records().contains_key(p) {
                    pre.records().insert(
                        p,
                        (Progress { count: bump(pre.records()[p].count), ..pre.records()[p] }),
                    )
                } else {
                    pre.records()
                })
                &&& !post.has_kids(target)
                &&& post.kids_of(target) == Seq::<usize>::empty()
                &&& forall|q: usize| q != target
                    ==> (#[trigger] post.kids_of(q)) == (if q == p {
                        without_id(pre.kids_of(q), target)
                    } else {
                        pre.kids_of(q)
                    }) && post.has_kids(q) == pre.has_kids(q)
            } else {
                same_tree(pre, post)
            }
        },
    }
}

/// Builds `list` with every occurrence of `x` dropped.
fn remove_matching(list: &Vec<usize>, x: usize) -> (r: Vec<usize>)
    ensures
        r@ == without_id(list@, x),
{
    let mut out: Vec<usize> = Vec::new();
    let mut i: usize = 0;
    while i < list.len()
        invariant
            i <= list.len(),
            out@ == without_id(list@.take(i as int), x),
        decreases list.len() - i,
    {
        let c = list[i];
        proof {
            assert(list@.take(i + 1).drop_last() =~= list@.take(i as int));
            assert(list@.take(i + 1).last() == list@[i as int]);
        }
        if c != x {
            out.push(c);
        }
        i = i + 1;
    }
    proof {
        assert(list@.take(list@.len() as int) =~= list@);
    }
    out
}

impl ProgressTracker {
    /// Applies one event. The new state is exactly `tracker_step` of the
    /// old one; tree consistency is preserved; and a record's completed
    /// count never decreases (it grows by exactly one on the stage a
    /// `Progress` event targets and on the parent of an ended stage, as
    /// `tracker_step` states).
    pub fn update(&mut self, parent: StageId, report: ProgressReport)
        ensures
            tracker_step(*old(self), *final(self), parent.0, report),
            old(self).wf() ==> final(self).wf(),
            forall|q: usize| #[trigger] old(self).records().contains_key(q)
                ==> final(self).records().contains_key(q)
                    && final(self).records()[q].count >= old(self).records()[q].count,
    {
        let ghost pre = *self;
        let ghost ev = report;
        let t = parent.0;
        match report {
            ProgressReport::BeginStage { id, name, steps } => {
                proof {
                    assert(ev is BeginStage);
                }
                if id.0 > t && !self.items.contains_key(&id.0)
                    && (t == VIRTUAL_ROOT || self.items.contains_key(&t)) {
                    let rec = Progress { parent: StageId(t), total: steps, count: 0, name };
                    self.items.insert(id.0, rec);
                    let mut list = match self.children.remove(&t) {
                        Some(l) => l,
                        None => Vec::new(),
                    };
                    list.push(id.0);
                    self.children.insert(t, list);
                }
                proof {
                    assert(tracker_step(pre, *self, t, ev));
                }
            },
            ProgressReport::Progress => {
                proof {
                    assert(ev is Progress);
                }
                match self.items.remove(&t) {
                    Some(rec) => {
                        let bumped = Progress { count: bump_exec(rec.count), ..rec };
                        self.items.insert(t, bumped);
                        proof {
                            assert(self.items@ =~= pre.items@.insert(
                                t,
                                (Progress { count: bump(pre.records()[t].count), ..pre.records()[t] }),
                            ));
                        }
                    },
                    None => {
                        proof {
                            assert(self.items@ =~= pre.items@);
                        }
                    },
                }
                proof {
                    assert(tracker_step(pre, *self, t, ev));
                }
            },
            ProgressReport::EndStage => {
                proof {
                    assert(ev is EndStage);
                }
                let p_opt: Option<usize> = match self.items.get(&t) {
                    Some(r) => Some(r.parent.0),
                    None => None,
                };
                if let Some(p) = p_opt {
                    match self.items.remove(&p) {
                        Some(rec) => {
                            let bumped = Progress { count: bump_exec(rec.count), ..rec };
                            self.items.insert(p, bumped);
                            proof {
                                assert(self.items@ =~= pre.items@.insert(
                                    p,
                                    (Progress {
                                        count: bump(pre.records()[p].count),
                                        ..pre.records()[p]
                                    }),
                                ));
                            }
                        },
                        None => {
                            proof {
                                assert(self.items@ =~= pre.items@);
                            }
                        },
                    }
                    self.children.remove(&t);
                    match self.children.remove(&p) {
                        Some(list) => {
                            let pruned = remove_matching(&list, t);
                            self.children.insert(p, pruned);
                        },
                        None => {},
                    }
                }
                proof {
                    assert(tracker_step(pre, *self, t, ev));
                }
            },
        }
        proof {
            if pre.wf() {
                lemma_step_preserves_wf(pre, *self, t, ev);
            }
            lemma_step_monotone(pre, *self, t, ev);
        }
    }
}

/// Two trackers with the same tree are consistent together.
pub proof fn lemma_same_tree_wf(pre: ProgressTracker, post: ProgressTracker)
    requires
        pre.wf(),
        same_tree(pre, post),
    ensures
        post.wf(),
{
    assert forall|p: usize| #[trigger] post.has_kids(p)
        implies p == VIRTUAL_ROOT || post.records().contains_key(p) by {
        assert(post.kids_of(p) == pre.kids_of(p));
    }
    assert forall|p: usize, i: int| 0 <= i < post.kids_of(p).len()
        implies (#[trigger] post.kids_of(p)[i]) > p
            && post.records().contains_key(post.kids_of(p)[i] as usize) by {
        assert(post.kids_of(p) == pre.kids_of(p));
    }
}

/// Tree consistency is an invariant of the event protocol: one step from
/// a consistent tracker leaves it consistent.
pub proof fn lemma_step_preserves_wf(
    pre: ProgressTracker,
    post: ProgressTracker,
    target: usize,
    ev: ProgressReport,
)
    requires
        pre.wf(),
        tracker_step(pre, post, target, ev),
    ensures
        post.wf(),
{
    match ev {
        ProgressReport::BeginStage { id, name, steps } => {
            if pre.begin_ok(target, id.0) {
                assert forall|p: usize| #[trigger] post.has_kids(p)
                    implies p == VIRTUAL_ROOT || post.records().contains_key(p) by {
                    if p != target {
                        assert(post.kids_of(p) == pre.kids_of(p));
                        assert(pre.has_kids(p));
                    }
                }
                assert forall|p: usize, i: int| 0 <= i < post.kids_of(p).len()
                    implies (#[trigger] post.kids_of(p)[i]) > p
                        && post.records().contains_key(post.kids_of(p)[i] as usize) by {
                    if p == target {
                        if i < pre.kids_of(p).len() {
                            assert(pre.kids_of(p)[i] > p);
                        }
                    } else {
                        assert(post.kids_of(p) == pre.kids_of(p));
                    }
                }
                assert forall|q: usize| #[trigger] post.records().contains_key(q)
                    implies post.records()[q].parent.0 < q
                        && (post.records()[q].parent.0 == VIRTUAL_ROOT
                            || post.records().contains_key(post.records()[q].parent.0)) by {
                    if q != id.0 {
                        assert(pre.records().contains_key(q));
                    }
                }
            } else {
                lemma_same_tree_wf(pre, post);
            }
        },
        ProgressReport::Progress => {
            if pre.records().contains_key(target) {
                assert forall|p: usize| #[trigger] post.has_kids(p)
                    implies p == VIRTUAL_ROOT || post.records().contains_key(p) by {
                    assert(post.kids_of(p) == pre.kids_of(p));
                }
                assert forall|p: usize, i: int| 0 <= i < post.kids_of(p).len()
                    implies (#[trigger] post.kids_of(p)[i]) > p
                        && post.records().contains_key(post.kids_of(p)[i] as usize) by {
                    assert(post.kids_of(p) == pre.kids_of(p));
                }
                assert forall|q: usize| #[trigger] post.records().contains_key(q)
                    implies post.records()[q].parent.0 < q
                        && (post.records()[q].parent.0 == VIRTUAL_ROOT
                            || post.records().contains_key(post.records()[q].parent.0)) by {
                    assert(pre.records().contains_key(q));
                    assert(post.records()[q].parent == pre.records()[q].parent);
                }
            } else {
                lemma_same_tree_wf(pre, post);
            }
        },
        ProgressReport::EndStage => {
            if pre.records().contains_key(target) {
                let par = pre.records()[target].parent.0;
                assert forall|p: usize| #[trigger] post.has_kids(p)
                    implies p == VIRTUAL_ROOT || post.records().contains_key(p) by {
                    assert(p != target);
                    assert(post.kids_of(p) == (if p == par {
                        without_id(pre.kids_of(p), target)
                    } else {
                        pre.kids_of(p)
                    }));
                    assert(pre.has_kids(p));
                }
                assert forall|p: usize, i: int| 0 <= i < post.kids_of(p).len()
                    implies (#[trigger] post.kids_of(p)[i]) > p
                        && post.records().contains_key(post.kids_of(p)[i] as usize) by {
                    if p != target && p == par {
                        lemma_without_id_subset(pre.kids_of(p), target);
                        let c = post.kids_of(p)[i];
                        assert(pre.kids_of(p).contains(c));
                        let j = choose|j: int|
                            0 <= j < pre.kids_of(p).len() && pre.kids_of(p)[j] == c;
                        assert(pre.kids_of(p)[j] > p);
                    } else if p != target {
                        assert(post.kids_of(p) == pre.kids_of(p));
                    }
                }
                assert forall|q: usize| #[trigger] post.records().contains_key(q)
                    implies post.records()[q].parent.0 < q
                        && (post.records()[q].parent.0 == VIRTUAL_ROOT
                            || post.records().contains_key(post.records()[q].parent.0)) by {
                    assert(pre.records().contains_key(q));
                    assert(post.records()[q].parent == pre.records()[q].parent);
                }
            } else {
                lemma_same_tree_wf(pre, post);
            }
        },
    }
}

/// Every element of `without_id(s, x)` already stands in `s`.
pub proof fn lemma_without_id_subset(s: Seq<usize>, x: usize)
    ensures
        forall|i: int| 0 <= i < without_id(s, x).len()
            ==> s.contains(#[trigger] without_id(s, x)[i]),
    decreases s.len(),
{
    if s.len() > 0 {
        lemma_without_id_subset(s.drop_last(), x);
        assert forall|i: int| 0 <= i < without_id(s, x).len()
            implies s.contains(#[trigger] without_id(s, x)[i]) by {
            if i < without_id(s.drop_last(), x).len() {
                let c = without_id(s.drop_last(), x)[i];
                assert(s.drop_last().contains(c));
                let j = choose|j: int| 0 <= j < s.drop_last().len() && s.drop_last()[j] == c;
                assert(s[j] == c);
            } else {
                assert(without_id(s, x)[i] == s.last());
            }
        }
    }
}

/// One line of a rendered snapshot: the stage, its indentation depth,
/// and the numbers `count`/`total` shown beside its name.
#[derive(Debug, Clone, PartialEq)]
pub struct Row {
    pub id: StageId,
    pub depth: usize,
    pub name: String,
    pub count: usize,
    pub total: usize,
}

/// The line a stage contributes to the snapshot.
pub open spec fn spec_row(items: Map<usize, Progress>, id: usize, depth: usize) -> Row {
    Row {
        id: StageId(id),
        depth,
        name: items[id].name,
        count: items[id].count,
        total: items[id].total,
    }
}

/// The snapshot lines of the subtree rooted at `id`, pre-order: the
/// stage's own line, then each currently-open child's subtree in
/// insertion order, one level deeper. A stage without a record
/// contributes nothing. (Children at an id not above their parent are
/// skipped so that the walk is well-founded; a consistent tracker has
/// none such.)
pub open spec fn spec_rows_from(t: ProgressTracker, id: usize, depth: usize) -> Seq<Row>
    decreases usize::MAX - id, 1int, 0int,
{
    if t.records().contains_key(id) {
        seq![spec_row(t.records(), id, depth)] + spec_rows_list(t, id, t.kids_of(id), depth)
    } else {
        Seq::empty()
    }
}

/// The snapshot lines of the subtrees of the children `list` of stage
/// `id`, in order, at one level below `depth`.
pub open spec fn spec_rows_list(
    t: ProgressTracker,
    id: usize,
    list: Seq<usize>,
    depth: usize,
) -> Seq<Row>
    decreases usize::MAX - id, 0int, list.len(),
{
    if list.len() == 0 {
        Seq::empty()
    } else {
        let rest = spec_rows_list(t, id, list.drop_last(), depth);
        let c = list.last();
        if c > id && depth < usize::MAX {
            rest + spec_rows_from(t, c, (depth + 1) as usize)
        } else {
            rest
        }
    }
}

impl ProgressTracker {
    /// The full snapshot: the subtree of the conventional root, stage id 1,
    /// the first stage ever begun.
    pub open spec fn spec_rows(self) -> Seq<Row> {
        spec_rows_from(self, 1, 0)
    }

    fn render_into(&self, id: usize, depth: usize, out: &mut Vec<Row>)
        ensures
            final(out)@ == old(out)@ + spec_rows_from(*self, id, depth),
        decreases usize::MAX - id,
    {
        let ghost entered = out@;
        match self.items.get(&id) {
            None => {
                proof {
                    assert(out@ =~= entered + spec_rows_from(*self, id, depth));
                }
            },
            Some(rec) => {
                out.push(Row {
                    id: StageId(id),
                    depth,
                    name: rec.name.clone(),
                    count: rec.count,
                    total: rec.total,
                });
                proof {
                    assert(out@ =~= entered + seq![spec_row(self.records(), id, depth)]);
                }
                match self.children.get(&id) {
                    None => {
                        proof {
                            assert(self.kids_of(id) == Seq::<usize>::empty());
                            assert(out@ =~= entered + spec_rows_from(*self, id, depth));
                        }
                    },
                    Some(list) => {
                        proof {
                            assert(list@ == self.kids_of(id));
                        }
                        let mut i: usize = 0;
                        while i < list.len()
                            invariant
                                i <= list.len(),
                                list@ == self.kids_of(id),
                                out@ == entered + seq![spec_row(self.records(), id, depth)]
                                    + spec_rows_list(*self, id, list@.take(i as int), depth),
                            decreases list.len() - i,
                        {
                            let c = list[i];
                            if c > id && depth < usize::MAX {
                                self.render_into(c, depth + 1, out);
                            }
                            proof {
                                assert(list@.take(i + 1).drop_last() =~= list@.take(i as int));
                                assert(list@.take(i + 1).last() == c);
                            }
                            i = i + 1;
                        }
                        proof {
                            assert(list@.take(list@.len() as int) =~= list@);
                        }
                    },
                }
            },
        }
    }

    /// The record of `id`, if that stage was ever begun. Records are
    /// archival: one stays retrievable here after its stage has ended
    /// and left every child listing.
    pub fn record(&self, id: StageId) -> (r: Option<&Progress>)
        ensures
            match r {
                Some(p) => self.records().contains_key(id.0) && *p == self.records()[id.0],
                None => !self.records().contains_key(id.0),
            },
    {
        self.items.get(&id.0)
    }

    /// The current snapshot as a list of rows, exactly `spec_rows`: a
    /// pre-order walk from the first-ever stage, showing each open
    /// stage's name and `count`/`total`, children indented one level.
    pub fn render(&self) -> (rows: Vec<Row>)
        ensures
            rows@ == self.spec_rows(),
    {
        let mut out: Vec<Row> = Vec::new();
        self.render_into(1, 0, &mut out);
        out
    }

    /// Renders the current snapshot to standard output, one line per
    /// visible stage: two spaces of indentation per depth level, the
    /// name, two spaces, then `count`/`total`.
    pub fn print(&self)
    {
        let rows = self.render();
        let mut i: usize = 0;
        while i < rows.len()
            decreases rows.len() - i,
        {
            emit_line(&rows[i]);
            i = i + 1;
        }
    }
}

/// Relies on `std::io::stdout`: writes one snapshot row as a line of
/// text; the row itself is not changed or interpreted.
#[verifier::external_body]
fn emit_line(row: &Row) {
    let mut out = std::io::stdout();
    let _ = writeln!(
        out,
        "{:indent$}{}  {}/{}",
        "",
        row.name,
        row.count,
        row.total,
        indent = 2 * row.depth
    );
}

impl Default for ProgressTracker {
    /// An empty tracker: no records, no child listings; trivially
    /// consistent.
    fn default() -> (t: ProgressTracker)
        ensures
            t.records() == Map::<usize, Progress>::empty(),
            forall|p: usize| !(#[trigger] t.has_kids(p))
                && t.kids_of(p) == Seq::<usize>::empty(),
            t.wf(),
    {
        ProgressTracker { items: HashMap::new(), children: HashMap::new() }
    }
}

/// Tree consistency under any sequence of events: along a chain of
/// trackers in which each is one step from the last — however the
/// events interleave stages — every tracker is consistent once the
/// first is; in particular every chain from the empty tracker is.
pub proof fn lemma_chain_preserves_wf(
    chain: Seq<ProgressTracker>,
    targets: Seq<usize>,
    events: Seq<ProgressReport>,
    i: int,
)
    requires
        chain.len() == events.len() + 1,
        targets.len() == events.len(),
        chain[0].wf(),
        forall|k: int| 0 <= k < events.len()
            ==> tracker_step(#[trigger] chain[k], chain[k + 1], targets[k], events[k]),
        0 <= i < chain.len(),
    ensures
        chain[i].wf(),
    decreases i,
{
    if i > 0 {
        lemma_chain_preserves_wf(chain, targets, events, i - 1);
        lemma_step_preserves_wf(chain[i - 1], chain[i], targets[i - 1], events[i - 1]);
    }
}

/// Progress monotonicity under any sequence of events: along a chain of
/// steps, a stage that has a record at one point keeps it from there on,
/// and its completed count never decreases. (Each single step that
/// raises a count raises it by exactly one, on exactly the stage
/// `tracker_step` names.)
pub proof fn lemma_chain_monotone(
    chain: Seq<ProgressTracker>,
    targets: Seq<usize>,
    events: Seq<ProgressReport>,
    i: int,
    j: int,
    q: usize,
)
    requires
        chain.len() == events.len() + 1,
        targets.len() == events.len(),
        forall|k: int| 0 <= k < events.len()
            ==> tracker_step(#[trigger] chain[k], chain[k + 1], targets[k], events[k]),
        0 <= i <= j < chain.len(),
        chain[i].records().contains_key(q),
    ensures
        chain[j].records().contains_key(q),
        chain[j].records()[q].count >= chain[i].records()[q].count,
    decreases j - i,
{
    if j > i {
        lemma_chain_monotone(chain, targets, events, i, j - 1, q);
        lemma_step_monotone(chain[j - 1], chain[j], targets[j - 1], events[j - 1]);
    }
}

/// `without_id(s, x)` holds no occurrence of `x`.
pub proof fn lemma_without_id_not_contains(s: Seq<usize>, x: usize)
    ensures
        !without_id(s, x).contains(x),
    decreases s.len(),
{
    if s.len() > 0 {
        lemma_without_id_not_contains(s.drop_last(), x);
        if s.last() != x {
            assert forall|i: int| 0 <= i < without_id(s, x).len()
                implies without_id(s, x)[i] != x by {
                if i < without_id(s.drop_last(), x).len() {
                    assert(!without_id(s.drop_last(), x).contains(x));
                }
            }
        }
    }
}

/// A stage that no open child listing holds is not walked: a snapshot
/// from any other stage prints no row of it.
pub proof fn lemma_unlisted_not_rendered(t: ProgressTracker, start: usize, depth: usize, x: usize)
    requires
        forall|q: usize| !(#[trigger] t.kids_of(q)).contains(x),
        x != start,
    ensures
        forall|i: int| 0 <= i < spec_rows_from(t, start, depth).len()
            ==> (#[trigger] spec_rows_from(t, start, depth)[i]).id != StageId(x),
    decreases usize::MAX - start, 1int, 0int,
{
    if t.records().contains_key(start) {
        lemma_unlisted_not_rendered_list(t, start, t.kids_of(start), depth, x);
        assert forall|i: int| 0 <= i < spec_rows_from(t, start, depth).len()
            implies (#[trigger] spec_rows_from(t, start, depth)[i]).id != StageId(x) by {
            if i == 0 {
                assert(spec_rows_from(t, start, depth)[0] == spec_row(t.records(), start, depth));
            } else {
                assert(spec_rows_from(t, start, depth)[i]
                    == spec_rows_list(t, start, t.kids_of(start), depth)[i - 1]);
            }
        }
    }
}

/// The companion of `lemma_unlisted_not_rendered` for a child list: no
/// subtree of a child in `list` prints a row of `x`, provided `list`
/// itself does not hold `x`.
pub proof fn lemma_unlisted_not_rendered_list(
    t: ProgressTracker,
    id: usize,
    list: Seq<usize>,
    depth: usize,
    x: usize,
)
    requires
        forall|q: usize| !(#[trigger] t.kids_of(q)).contains(x),
        !list.contains(x),
    ensures
        forall|i: int| 0 <= i < spec_rows_list(t, id, list, depth).len()
            ==> (#[trigger] spec_rows_list(t, id, list, depth)[i]).id != StageId(x),
    decreases usize::MAX - id, 0int, list.len(),
{
    if list.len() > 0 {
        assert(!list.drop_last().contains(x)) by {
            assert forall|i: int| 0 <= i < list.drop_last().len()
                implies list.drop_last()[i] != x by {
                assert(list[i] == list.drop_last()[i]);
            }
        }
        lemma_unlisted_not_rendered_list(t, id, list.drop_last(), depth, x);
        let c = list.last();
        assert(c != x);
        if c > id && depth < usize::MAX {
            lemma_unlisted_not_rendered(t, c, (depth + 1) as usize, x);
            let rest = spec_rows_list(t, id, list.drop_last(), depth);
            let sub = spec_rows_from(t, c, (depth + 1) as usize);
            assert forall|i: int| 0 <= i < spec_rows_list(t, id, list, depth).len()
                implies (#[trigger] spec_rows_list(t, id, list, depth)[i]).id != StageId(x) by {
                if i < rest.len() {
                    assert(spec_rows_list(t, id, list, depth)[i] == rest[i]);
                } else {
                    assert(spec_rows_list(t, id, list, depth)[i] == sub[i - rest.len()]);
                }
            }
        } else {
            assert(spec_rows_list(t, id, list, depth)
                == spec_rows_list(t, id, list.drop_last(), depth));
        }
    }
}

/// Pruning: once a stage's `EndStage` is applied, its id is gone from
/// its former parent's child list, and a later snapshot prints no line
/// for it (its record is still retrievable). The stage must not be the
/// conventional root, whose own line the snapshot always opens with,
/// and must be listed nowhere but under its parent, as every stage
/// begun through the event protocol is.
pub proof fn lemma_end_stage_prunes(pre: ProgressTracker, post: ProgressTracker, t: usize)
    requires
        pre.wf(),
        pre.records().contains_key(t),
        tracker_step(pre, post, t, ProgressReport::EndStage),
        forall|q: usize| q != pre.records()[t].parent.0
            ==> !(#[trigger] pre.kids_of(q)).contains(t),
        t != 1,
    ensures
        !post.kids_of(pre.records()[t].parent.0).contains(t),
        forall|i: int| 0 <= i < post.spec_rows().len()
            ==> (#[trigger] post.spec_rows()[i]).id != StageId(t),
{
    let p = pre.records()[t].parent.0;
    assert(p != t);
    lemma_without_id_not_contains(pre.kids_of(p), t);
    assert(post.kids_of(p) == without_id(pre.kids_of(p), t));
    assert forall|q: usize| !(#[trigger] post.kids_of(q)).contains(t) by {
        if q == t {
            assert(post.kids_of(q) == Seq::<usize>::empty());
        } else if q == p {
            assert(!without_id(pre.kids_of(p), t).contains(t));
        } else {
            assert(post.kids_of(q) == pre.kids_of(q));
        }
    }
    lemma_unlisted_not_rendered(post, 1, 0, t);
}

/// A completed count never decreases across one step.
pub proof fn lemma_step_monotone(
    pre: ProgressTracker,
    post: ProgressTracker,
    target: usize,
    ev: ProgressReport,
)
    requires
        tracker_step(pre, post, target, ev),
    ensures
        forall|q: usize| #[trigger] pre.records().contains_key(q)
            ==> post.records().contains_key(q)
                && post.records()[q].count >= pre.records()[q].count,
{
}

} // verus!
