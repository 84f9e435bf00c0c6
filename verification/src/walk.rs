//! The breadth-first walks over the display list: `list_display`, which
//! lists nodes, and `find`, which collects keyword hits. The walks decide
//! what is visited, in which order, under which path and within which
//! limits; the caller reads each node it is handed and offers that node's
//! children by name, and the walk derives their depth and path from the
//! node being visited. `H` is the caller's handle of a display object, `V`
//! the type of a slot's value.
use vstd::prelude::*;
use std::collections::VecDeque;
use crate::lookup::{keywords_of, comma_pieces, matches_keywords, name_matches, parse_keywords};

verus! {

broadcast use vstd::std_specs::vecdeque::group_vec_dequeue_axioms;

/// `parent/child`, the path of a child in the display list.
pub open spec fn child_path(parent: Seq<char>, name: Seq<char>) -> Seq<char> {
    parent + seq!['/'] + name
}

/// Builds the path of a child node.
pub fn make_child_path(parent: &str, name: &str) -> (r: String)
    ensures
        r@ == child_path(parent@, name@),
{
    let mut r = String::from_str(parent);
    crate::text::push_char(&mut r, '/');
    r.append(name);
    assert(r@ =~= child_path(parent@, name@));
    r
}

/// A node waiting to be visited: its handle, depth and path.
pub struct Visit<H> {
    pub node: H,
    pub depth: usize,
    pub path: String,
}

/// A node that the walk listed: its handle, depth and path, and, below the
/// start node, the index of the listed node it was offered under and the
/// name it was offered with.
pub struct Listing<H> {
    pub node: H,
    pub depth: int,
    pub path: Seq<char>,
    pub parent: int,
    pub name: Seq<char>,
}

/// The walk of `list_display`: nodes are listed breadth-first from the
/// start node, at most `limit` of them; the children of a listed node are
/// offered while it is the node being expanded, only above `max_depth`,
/// and no child is queued once listed and queued nodes together reach
/// twice the limit.
pub struct ListWalk<H> {
    queue: VecDeque<Visit<H>>,
    current: Option<(usize, String)>,
    listed: usize,
    limit: usize,
    max_depth: usize,
    start_path: Ghost<Seq<char>>,
    log: Ghost<Seq<Listing<H>>>,
    queue_from: Ghost<Seq<(int, Seq<char>)>>,
}

/// The cap on listed plus queued nodes: `2 * limit`, wrapping as the
/// player's release build computes it.
pub open spec fn queue_cap(limit: usize) -> usize {
    limit.wrapping_mul(2)
}

impl<H> ListWalk<H> {
    /// The nodes waiting, oldest first.
    pub closed spec fn queue_view(&self) -> Seq<Visit<H>> {
        self.queue@
    }

    /// For each waiting node, the index of the listed node it was offered
    /// under (-1 for the start node) and the name it was offered with.
    pub closed spec fn queue_from_view(&self) -> Seq<(int, Seq<char>)> {
        self.queue_from@
    }

    /// The nodes listed so far, in order.
    pub closed spec fn listed_view(&self) -> Seq<Listing<H>> {
        self.log@
    }

    /// The depth and path of the node being expanded: the last one listed,
    /// until the next call of `next`.
    pub closed spec fn current_view(&self) -> Option<(int, Seq<char>)> {
        match self.current {
            Some((d, p)) => Some((d as int, p@)),
            None => None,
        }
    }

    /// The path of the start node: `root` or `stage`.
    pub closed spec fn start_path_view(&self) -> Seq<char> {
        self.start_path@
    }

    /// The most nodes that are listed.
    pub closed spec fn limit_view(&self) -> usize {
        self.limit
    }

    /// The deepest depth whose nodes are listed with their children queued.
    pub closed spec fn max_depth_view(&self) -> usize {
        self.max_depth
    }

    /// The cap on listed plus waiting nodes (at least the start node).
    pub open spec fn room(&self) -> int {
        if queue_cap(self.limit_view()) > 1 { queue_cap(self.limit_view()) as int } else { 1 }
    }

    /// The listed nodes form a breadth-first walk of a tree from the start
    /// node: the first is the start node at depth 0; every later one was
    /// offered under an earlier listed node, one level deeper, at that
    /// node's path, `/` and its name; depths never decrease and never pass
    /// `max_depth`; and no more than `limit` are listed.
    pub open spec fn listing_ok(&self) -> bool {
        let log = self.listed_view();
        &&& log.len() <= self.limit_view()
        &&& log.len() > 0 ==> log[0].depth == 0 && log[0].path == self.start_path_view() && log[0].parent == -1
        &&& forall|i: int| #![trigger log[i]] 0 < i < log.len() ==> {
            &&& 0 <= log[i].parent < i
            &&& log[i].depth == log[log[i].parent].depth + 1
            &&& log[i].path == child_path(log[log[i].parent].path, log[i].name)
        }
        &&& forall|i: int, j: int| 0 <= i <= j < log.len() ==> log[i].depth <= log[j].depth
        &&& forall|i: int| 0 <= i < log.len() ==> 0 <= #[trigger] log[i].depth <= self.max_depth_view()
    }

    /// The waiting nodes continue that walk: depths never decrease, start
    /// no lower than the last listed node and end at most one level below
    /// it; each is one level below the listed node it was offered under, at
    /// its path, `/` and its name (the start node waits alone at depth 0
    /// under the start path).
    pub open spec fn queue_ok(&self) -> bool {
        let log = self.listed_view();
        let q = self.queue_view();
        let qf = self.queue_from_view();
        &&& qf.len() == q.len()
        &&& log.len() + q.len() <= self.room()
        &&& forall|i: int, j: int| 0 <= i <= j < q.len() ==> q[i].depth <= q[j].depth
        &&& forall|j: int| 0 <= j < q.len() ==> #[trigger] q[j].depth <= self.max_depth_view()
        &&& log.len() == 0 ==> q.len() <= 1 && (q.len() == 1 ==> q[0].depth == 0 && q[0].path@
            == self.start_path_view() && qf[0].0 == -1)
        &&& forall|j: int| #![trigger q[j]] #![trigger qf[j]] log.len() > 0 && 0 <= j < q.len() ==> {
            &&& 0 <= qf[j].0 && qf[j].0 < log.len()
            &&& q[j].depth == log[qf[j].0].depth + 1
            &&& q[j].path@ == child_path(log[qf[j].0].path, qf[j].1)
        }
        &&& log.len() > 0 && q.len() > 0 ==> log.last().depth <= q[0].depth && q.last().depth <= log.last().depth + 1
    }

    /// The walk's count of listed nodes is that of the listing.
    pub closed spec fn counted(&self) -> bool {
        self.listed as int == self.log@.len()
    }

    /// What the walk keeps: a well-formed listing, a well-formed queue, and
    /// the node being expanded is the last one listed.
    pub open spec fn wf(&self) -> bool {
        &&& self.counted()
        &&& self.listing_ok()
        &&& self.queue_ok()
        &&& self.current_view() matches Some((d, p)) ==> self.listed_view().len() > 0 && d
            == self.listed_view().last().depth && p == self.listed_view().last().path
    }

    /// Starts the walk at the root clip under `root` when there is one,
    /// else at the stage under `stage`, at depth 0.
    pub fn new(root: Option<H>, stage: H, max_depth: usize, limit: usize) -> (w: Self)
        ensures
            w.wf(),
            w.start_path_view() == (if root is Some { "root"@ } else { "stage"@ }),
            w.queue_view().len() == 1,
            w.queue_view()[0].node == (match root { Some(r) => r, None => stage }),
            w.queue_view()[0].depth == 0,
            w.queue_view()[0].path@ == w.start_path_view(),
            w.listed_view().len() == 0,
            w.current_view() is None,
            w.limit_view() == limit,
            w.max_depth_view() == max_depth,
    {
        let (node, path) = match root {
            Some(r) => (r, String::from_str("root")),
            None => (stage, String::from_str("stage")),
        };
        let ghost start = path@;
        let ghost from0: Seq<(int, Seq<char>)> = seq![(-1int, Seq::<char>::empty())];
        let ghost log0: Seq<Listing<H>> = Seq::empty();
        let mut queue = VecDeque::new();
        queue.push_back(Visit { node, depth: 0, path });
        let w = ListWalk {
            queue,
            current: None,
            listed: 0,
            limit,
            max_depth,
            start_path: Ghost(start),
            log: Ghost(log0),
            queue_from: Ghost(from0),
        };
        assert(w.queue@.len() == 1);
        w
    }

    /// The next node to list: the oldest waiting one, while fewer than
    /// `limit` are listed; it becomes the node being expanded. `None` ends
    /// the walk.
    pub fn next(&mut self) -> (r: Option<Visit<H>>)
        requires
            old(self).wf(),
        ensures
            final(self).wf(),
            final(self).limit_view() == old(self).limit_view(),
            final(self).max_depth_view() == old(self).max_depth_view(),
            final(self).start_path_view() == old(self).start_path_view(),
            old(self).queue_view().len() == 0 ==> r is None && final(self).queue_view() == old(self).queue_view()
                && final(self).listed_view() == old(self).listed_view(),
            old(self).queue_view().len() > 0 ==> final(self).queue_view() == old(self).queue_view().drop_first()
                && final(self).queue_from_view() == old(self).queue_from_view().drop_first(),
            old(self).queue_view().len() > 0 && old(self).listed_view().len() >= old(self).limit_view() ==> r is None
                && final(self).listed_view() == old(self).listed_view(),
            old(self).queue_view().len() > 0 && old(self).listed_view().len() < old(self).limit_view() ==> {
                let v = old(self).queue_view()[0];
                &&& r == Some(v)
                &&& final(self).listed_view() == old(self).listed_view().push(Listing {
                    node: v.node,
                    depth: v.depth as int,
                    path: v.path@,
                    parent: old(self).queue_from_view()[0].0,
                    name: old(self).queue_from_view()[0].1,
                })
                &&& final(self).current_view() == Some((v.depth as int, v.path@))
            },
            r is None ==> final(self).current_view() is None,
    {
        self.current = None;
        if self.queue.len() == 0 {
            return None;
        }
        let ghost from = self.queue_from@[0];
        let ghost old_log = self.log@;
        let v = self.queue.pop_front().unwrap();
        proof {
            self.queue_from@ = self.queue_from@.drop_first();
            let q0 = old(self).queue@;
            assert(self.queue@ =~= q0.drop_first());
            assert forall|j: int| 0 <= j < self.queue@.len() implies #[trigger] self.queue@[j] == q0[j + 1]
                && self.queue_from@[j] == old(self).queue_from@[j + 1] by {}
            assert forall|i: int, j: int| 0 <= i <= j < self.queue@.len() implies self.queue@[i].depth
                <= self.queue@[j].depth by {
                assert(q0[i + 1].depth <= q0[j + 1].depth);
            }
            if self.queue@.len() > 0 {
                assert(self.queue@.last() == q0.last());
                assert(q0[0].depth <= q0[1].depth);
            }
            let log = old(self).log@;
            let q = self.queue@;
            let qf = self.queue_from@;
            assert forall|j: int| #![trigger q[j]] #![trigger qf[j]] log.len() > 0 && 0 <= j < q.len() implies {
                &&& 0 <= qf[j].0 && qf[j].0 < log.len()
                &&& q[j].depth == log[qf[j].0].depth + 1
                &&& q[j].path@ == child_path(log[qf[j].0].path, qf[j].1)
            } by {
                assert(q[j] == q0[j + 1]);
                assert(qf[j] == old(self).queue_from@[j + 1]);
            }
        }
        if self.listed >= self.limit {
            return None;
        }
        proof {
            self.log@ = self.log@.push(Listing {
                node: v.node,
                depth: v.depth as int,
                path: v.path@,
                parent: from.0,
                name: from.1,
            });
            assert forall|i: int| 0 <= i < old_log.len() implies #[trigger] self.log@[i] == old_log[i] by {}
            assert forall|i: int, j: int| 0 <= i <= j < self.log@.len() implies self.log@[i].depth
                <= self.log@[j].depth by {
                if j == old_log.len() && i < j {
                    assert(old_log[i].depth <= old_log.last().depth);
                }
            }
            if self.queue@.len() > 0 {
                assert(old(self).queue@[0].depth <= old(self).queue@[1].depth);
                assert(self.queue@.last() == old(self).queue@.last());
            }
        }
        self.listed = self.listed + 1;
        self.current = Some((v.depth, v.path.clone()));
        Some(v)
    }

    /// Whether the node being expanded has its children offered: there is
    /// one and it lies above `max_depth`.
    pub fn descends(&self) -> (r: bool)
        ensures
            r == (self.current_view() matches Some((d, _)) && d < self.max_depth_view()),
    {
        match &self.current {
            Some((d, _)) => *d < self.max_depth,
            None => false,
        }
    }

    /// Offers a child of the node being expanded, named `name`: it is
    /// queued one level deeper under the node's path, `/` and `name`, when
    /// the node `descends` and listed and queued nodes stay below the cap;
    /// otherwise nothing changes and the rest of the children are passed
    /// over (`false`).
    pub fn offer_child(&mut self, child: H, name: &str) -> (r: bool)
        requires
            old(self).wf(),
        ensures
            final(self).wf(),
            final(self).limit_view() == old(self).limit_view(),
            final(self).max_depth_view() == old(self).max_depth_view(),
            final(self).start_path_view() == old(self).start_path_view(),
            final(self).listed_view() == old(self).listed_view(),
            final(self).current_view() == old(self).current_view(),
            r == (old(self).current_view() matches Some((d, _)) && d < old(self).max_depth_view()
                && old(self).listed_view().len() + old(self).queue_view().len() < queue_cap(old(self).limit_view())),
            r ==> {
                let (d, p) = old(self).current_view()->0;
                &&& final(self).queue_view().len() == old(self).queue_view().len() + 1
                &&& final(self).queue_view().drop_last() == old(self).queue_view()
                &&& final(self).queue_view().last().node == child
                &&& final(self).queue_view().last().depth == d + 1
                &&& final(self).queue_view().last().path@ == child_path(p, name@)
                &&& final(self).queue_from_view() == old(self).queue_from_view().push(
                    (old(self).listed_view().len() - 1, name@),
                )
            },
            !r ==> final(self).queue_view() == old(self).queue_view()
                && final(self).queue_from_view() == old(self).queue_from_view(),
    {
        let cap = self.limit.wrapping_mul(2);
        let (depth, path) = match &self.current {
            Some((d, p)) => (*d, p.as_str()),
            None => return false,
        };
        if depth >= self.max_depth || self.listed + self.queue.len() >= cap {
            return false;
        }
        let child_at = make_child_path(path, name);
        let ghost parent = self.log@.len() - 1;
        self.queue.push_back(Visit { node: child, depth: depth + 1, path: child_at });
        proof {
            self.queue_from@ = self.queue_from@.push((parent, name@));
            let q0 = old(self).queue@;
            let qf0 = old(self).queue_from@;
            let q = self.queue@;
            let qf = self.queue_from@;
            let log = self.log@;
            assert(q.drop_last() =~= q0);
            assert forall|j: int| 0 <= j < q0.len() implies #[trigger] q[j] == q0[j] && qf[j] == qf0[j] by {}
            assert forall|i: int, j: int| 0 <= i <= j < q.len() implies q[i].depth <= q[j].depth by {
                if j < q0.len() {
                    assert(q0[i].depth <= q0[j].depth);
                } else if i < q0.len() {
                    assert(q0[i].depth <= q0.last().depth);
                }
            }
            assert forall|j: int| #![trigger q[j]] #![trigger qf[j]] log.len() > 0 && 0 <= j < q.len() implies {
                &&& 0 <= qf[j].0 && qf[j].0 < log.len()
                &&& q[j].depth == log[qf[j].0].depth + 1
                &&& q[j].path@ == child_path(log[qf[j].0].path, qf[j].1)
            } by {
                if j < q0.len() {
                    assert(q[j] == q0[j]);
                    assert(qf[j] == qf0[j]);
                }
            }
            assert(self.queue_ok());
        }
        true
    }
}

/// The listing law of `list_display`: whatever the caller offers, the
/// nodes listed are at most `limit`; the first is the start node (the root
/// clip under `root`, else the stage under `stage`) at depth 0; every later
/// one was offered under an earlier listed node one level up and its path
/// is that node's path, `/` and its name; depths never decrease along the
/// listing and never pass `max_depth`.
pub proof fn lemma_list_walk_is_breadth_first<H>(w: &ListWalk<H>)
    requires
        w.wf(),
    ensures
        w.listed_view().len() <= w.limit_view(),
        w.listed_view().len() > 0 ==> w.listed_view()[0].depth == 0 && w.listed_view()[0].path
            == w.start_path_view(),
        forall|i: int| 0 < i < w.listed_view().len() ==> {
            let p = #[trigger] w.listed_view()[i].parent;
            &&& 0 <= p < i
            &&& w.listed_view()[i].depth == w.listed_view()[p].depth + 1
            &&& w.listed_view()[i].path == child_path(w.listed_view()[p].path, w.listed_view()[i].name)
        },
        forall|i: int, j: int| 0 <= i <= j < w.listed_view().len() ==> w.listed_view()[i].depth
            <= w.listed_view()[j].depth,
        forall|i: int| 0 <= i < w.listed_view().len() ==> #[trigger] w.listed_view()[i].depth <= w.max_depth_view(),
{
}

/// How a `find` hit was found.
#[derive(PartialEq, Eq, Structural, Clone, Copy, Debug)]
pub enum HitVia {
    /// A slot of a SharedObject's data.
    SharedObjectSlot,
    /// The name of a display object.
    DisplayName,
    /// A slot of a display object.
    Slot,
}

/// How `find` names the way a hit was found.
pub open spec fn via_label_spec(v: HitVia) -> Seq<char> {
    match v {
        HitVia::SharedObjectSlot => "shared_object_slot"@,
        HitVia::DisplayName => "display_name"@,
        HitVia::Slot => "slot"@,
    }
}

impl HitVia {
    /// The name `find` reports for this way: `shared_object_slot`,
    /// `display_name` or `slot`.
    pub fn label(&self) -> (r: String)
        ensures
            r@ == via_label_spec(*self),
    {
        match self {
            HitVia::SharedObjectSlot => String::from_str("shared_object_slot"),
            HitVia::DisplayName => String::from_str("display_name"),
            HitVia::Slot => String::from_str("slot"),
        }
    }
}

/// One `find` hit: the path to it, the matching name, the slot's value
/// (none for a display name), how it was found, and for a display name the
/// node's kind.
pub struct Hit<V> {
    pub path: String,
    pub name: String,
    pub value: Option<V>,
    pub via: HitVia,
    pub kind: Option<String>,
}

/// The walk of `find`: SharedObject slots first, then the display list
/// breadth-first from the root; at most `limit` hits. Once the display walk
/// has started no SharedObject slot is looked at.
pub struct FindWalk<H, V> {
    keywords: Vec<String>,
    hits: Vec<Hit<V>>,
    queue: VecDeque<Visit<H>>,
    current: Option<(usize, String)>,
    started: bool,
    limit: usize,
    max_depth: usize,
}

/// `so:NAME|SLOT`, the path of a SharedObject slot hit.
pub open spec fn so_slot_path(so: Seq<char>, slot: Seq<char>) -> Seq<char> {
    "so:"@ + so + seq!['|'] + slot
}

/// `PATH.SLOT`, the path of a display object's slot hit.
pub open spec fn slot_path(path: Seq<char>, slot: Seq<char>) -> Seq<char> {
    path + seq!['.'] + slot
}

impl<H, V> FindWalk<H, V> {
    /// The keywords, trimmed and lower-case.
    pub closed spec fn keywords_view(&self) -> Seq<Seq<char>> {
        Seq::new(self.keywords@.len(), |i: int| self.keywords@[i]@)
    }

    /// The hits so far, in the order found.
    pub closed spec fn hits_view(&self) -> Seq<Hit<V>> {
        self.hits@
    }

    /// The display nodes waiting, oldest first.
    pub closed spec fn queue_view(&self) -> Seq<Visit<H>> {
        self.queue@
    }

    /// The depth and path of the display node being visited, until the
    /// next call of `next`.
    pub closed spec fn current_view(&self) -> Option<(int, Seq<char>)> {
        match self.current {
            Some((d, p)) => Some((d as int, p@)),
            None => None,
        }
    }

    /// The path of the display node being visited (empty when none is).
    pub open spec fn current_path_view(&self) -> Seq<char> {
        match self.current_view() {
            Some((_, p)) => p,
            None => Seq::empty(),
        }
    }

    /// Whether the display walk has started.
    pub closed spec fn started_view(&self) -> bool {
        self.started
    }

    /// The most hits collected.
    pub closed spec fn limit_view(&self) -> usize {
        self.limit
    }

    /// The deepest depth whose children are queued.
    pub closed spec fn max_depth_view(&self) -> usize {
        self.max_depth
    }

    /// What the walk keeps: never more hits than the limit; every
    /// SharedObject hit comes before every other hit, and before the
    /// display walk starts there are no others; the waiting nodes' depths
    /// never decrease, span at most one level and never pass `max_depth`,
    /// and the node being visited lies no deeper than the first waiting one
    /// and at most one level above the last.
    pub open spec fn wf(&self) -> bool {
        let h = self.hits_view();
        let q = self.queue_view();
        &&& h.len() <= self.limit_view()
        &&& forall|i: int, j: int| 0 <= i <= j < h.len() && h[j].via == HitVia::SharedObjectSlot ==> h[i].via
            == HitVia::SharedObjectSlot
        &&& !self.started_view() ==> q.len() == 0 && self.current_view() is None && forall|i: int|
            0 <= i < h.len() ==> #[trigger] h[i].via == HitVia::SharedObjectSlot
        &&& forall|i: int, j: int| 0 <= i <= j < q.len() ==> q[i].depth <= q[j].depth
        &&& forall|j: int| 0 <= j < q.len() ==> #[trigger] q[j].depth <= self.max_depth_view()
        &&& q.len() > 0 ==> q.last().depth <= q[0].depth + 1
        &&& self.current_view() matches Some((d, _)) ==> 0 <= d <= self.max_depth_view() && (q.len() > 0 ==> d
            <= q[0].depth && q.last().depth <= d + 1)
    }

    /// Starts a search for the keywords of a comma-separated list.
    pub fn new(keywords: &str, max_depth: usize, limit: usize) -> (w: Self)
        ensures
            w.wf(),
            w.keywords_view() == keywords_of(comma_pieces(keywords@)),
            w.hits_view().len() == 0,
            w.queue_view().len() == 0,
            w.current_view() is None,
            !w.started_view(),
            w.limit_view() == limit,
            w.max_depth_view() == max_depth,
    {
        let kws = parse_keywords(keywords);
        let w = FindWalk {
            keywords: kws,
            hits: Vec::new(),
            queue: VecDeque::new(),
            current: None,
            started: false,
            limit,
            max_depth,
        };
        assert(w.keywords_view() =~= keywords_of(comma_pieces(keywords@)));
        w
    }

    /// Whether `limit` hits are collected.
    pub fn full(&self) -> (r: bool)
        ensures
            r == (self.hits_view().len() >= self.limit_view()),
    {
        self.hits.len() >= self.limit
    }

    /// The keywords, as the answer reports them.
    pub fn keywords(&self) -> (r: &Vec<String>)
        ensures
            Seq::new(r@.len(), |i: int| r@[i]@) == self.keywords_view(),
    {
        &self.keywords
    }

    fn push_hit(&mut self, hit: Hit<V>)
        requires
            old(self).hits_view().len() < old(self).limit_view(),
        ensures
            final(self).hits_view() == old(self).hits_view().push(hit),
            final(self).keywords_view() == old(self).keywords_view(),
            final(self).queue_view() == old(self).queue_view(),
            final(self).current_view() == old(self).current_view(),
            final(self).started_view() == old(self).started_view(),
            final(self).limit_view() == old(self).limit_view(),
            final(self).max_depth_view() == old(self).max_depth_view(),
    {
        self.hits.push(hit);
        assert(self.keywords_view() =~= old(self).keywords_view());
    }

    /// Looks at one slot of SharedObject `so`: before the display walk
    /// starts, a hit at `so:SO|SLOT` when the slot's name matches and fewer
    /// than `limit` hits are collected.
    pub fn consider_so_slot(&mut self, so: &str, slot: &str, value: V)
        requires
            old(self).wf(),
        ensures
            final(self).wf(),
            final(self).keywords_view() == old(self).keywords_view(),
            final(self).queue_view() == old(self).queue_view(),
            final(self).current_view() == old(self).current_view(),
            final(self).started_view() == old(self).started_view(),
            final(self).limit_view() == old(self).limit_view(),
            final(self).max_depth_view() == old(self).max_depth_view(),
            if !old(self).started_view() && old(self).hits_view().len() < old(self).limit_view() && matches_keywords(
                slot@,
                old(self).keywords_view(),
            ) {
                &&& final(self).hits_view().len() == old(self).hits_view().len() + 1
                &&& final(self).hits_view().drop_last() == old(self).hits_view()
                &&& final(self).hits_view().last().path@ == so_slot_path(so@, slot@)
                &&& final(self).hits_view().last().name@ == slot@
                &&& final(self).hits_view().last().value == Some(value)
                &&& final(self).hits_view().last().via == HitVia::SharedObjectSlot
                &&& final(self).hits_view().last().kind is None
            } else {
                final(self).hits_view() == old(self).hits_view()
            },
    {
        if self.started || self.hits.len() >= self.limit || !name_matches(slot, &self.keywords) {
            return;
        }
        let mut path = String::from_str("so:");
        path.append(so);
        crate::text::push_char(&mut path, '|');
        path.append(slot);
        assert(path@ =~= so_slot_path(so@, slot@));
        self.push_hit(Hit { path, name: String::from_str(slot), value: Some(value), via: HitVia::SharedObjectSlot, kind: None });
        assert(self.hits@.drop_last() =~= old(self).hits@);
    }

    /// Starts the display walk at the root clip, if there is one, at depth
    /// 0 under `root`. A second call changes nothing.
    pub fn start_display(&mut self, root: Option<H>)
        requires
            old(self).wf(),
        ensures
            final(self).wf(),
            final(self).started_view(),
            final(self).keywords_view() == old(self).keywords_view(),
            final(self).hits_view() == old(self).hits_view(),
            final(self).current_view() == old(self).current_view(),
            final(self).limit_view() == old(self).limit_view(),
            final(self).max_depth_view() == old(self).max_depth_view(),
            !old(self).started_view() && root is Some ==> {
                &&& final(self).queue_view().len() == 1
                &&& final(self).queue_view()[0].node == root->0
                &&& final(self).queue_view()[0].depth == 0
                &&& final(self).queue_view()[0].path@ == "root"@
            },
            old(self).started_view() || root is None ==> final(self).queue_view() == old(self).queue_view(),
    {
        if self.started {
            return;
        }
        self.started = true;
        if let Some(r) = root {
            self.queue.push_back(Visit { node: r, depth: 0, path: String::from_str("root") });
        }
        assert(self.keywords_view() =~= old(self).keywords_view());
    }

    /// The next display node to visit: the oldest waiting one while fewer
    /// than `limit` hits are collected; it becomes the node being visited.
    /// `None` ends the walk. The display walk counts as started.
    pub fn next(&mut self) -> (r: Option<Visit<H>>)
        requires
            old(self).wf(),
        ensures
            final(self).wf(),
            final(self).started_view(),
            final(self).keywords_view() == old(self).keywords_view(),
            final(self).hits_view() == old(self).hits_view(),
            final(self).limit_view() == old(self).limit_view(),
            final(self).max_depth_view() == old(self).max_depth_view(),
            old(self).queue_view().len() == 0 ==> r is None && final(self).queue_view() == old(self).queue_view(),
            old(self).queue_view().len() > 0 ==> final(self).queue_view() == old(self).queue_view().drop_first(),
            old(self).queue_view().len() > 0 ==> (r is None <==> old(self).hits_view().len() >= old(self).limit_view()),
            r is Some ==> r == Some(old(self).queue_view()[0]) && final(self).current_view() == Some(
                (old(self).queue_view()[0].depth as int, old(self).queue_view()[0].path@),
            ),
            r is None ==> final(self).current_view() is None,
    {
        self.started = true;
        self.current = None;
        let popped = self.queue.pop_front();
        assert(self.keywords_view() =~= old(self).keywords_view());
        match popped {
            None => None,
            Some(v) => {
                let ghost q0 = old(self).queue@;
                proof {
                    assert(self.queue@ =~= q0.drop_first());
                    assert forall|j: int| 0 <= j < self.queue@.len() implies #[trigger] self.queue@[j] == q0[j + 1] by {}
                    assert forall|i: int, j: int| 0 <= i <= j < self.queue@.len() implies self.queue@[i].depth
                        <= self.queue@[j].depth by {
                        assert(q0[i + 1].depth <= q0[j + 1].depth);
                    }
                    if self.queue@.len() > 0 {
                        assert(self.queue@.last() == q0.last());
                        assert(q0[0].depth <= q0[1].depth);
                    }
                }
                if self.hits.len() >= self.limit {
                    None
                } else {
                    self.current = Some((v.depth, v.path.clone()));
                    Some(v)
                }
            },
        }
    }

    /// Looks at the name of the node being visited: a hit at the node's
    /// path when the name matches and fewer than `limit` hits are
    /// collected.
    pub fn consider_display_name(&mut self, name: &str, kind: String)
        requires
            old(self).wf(),
        ensures
            final(self).wf(),
            final(self).keywords_view() == old(self).keywords_view(),
            final(self).queue_view() == old(self).queue_view(),
            final(self).current_view() == old(self).current_view(),
            final(self).started_view() == old(self).started_view(),
            final(self).limit_view() == old(self).limit_view(),
            final(self).max_depth_view() == old(self).max_depth_view(),
            if old(self).current_view() is Some && old(self).hits_view().len() < old(self).limit_view()
                && matches_keywords(name@, old(self).keywords_view()) {
                &&& final(self).hits_view().len() == old(self).hits_view().len() + 1
                &&& final(self).hits_view().drop_last() == old(self).hits_view()
                &&& final(self).hits_view().last().path@ == old(self).current_path_view()
                &&& final(self).hits_view().last().name@ == name@
                &&& final(self).hits_view().last().value is None
                &&& final(self).hits_view().last().via == HitVia::DisplayName
                &&& final(self).hits_view().last().kind == Some(kind)
            } else {
                final(self).hits_view() == old(self).hits_view()
            },
    {
        let path = match &self.current {
            Some((_, p)) => String::from_str(p.as_str()),
            None => return,
        };
        if self.hits.len() >= self.limit || !name_matches(name, &self.keywords) {
            return;
        }
        self.push_hit(Hit { path, name: String::from_str(name), value: None, via: HitVia::DisplayName, kind: Some(kind) });
        assert(self.hits@.drop_last() =~= old(self).hits@);
    }

    /// Looks at one slot of the node being visited: a hit at `PATH.SLOT`
    /// when the slot's name matches and fewer than `limit` hits are
    /// collected.
    pub fn consider_slot(&mut self, slot: &str, value: V)
        requires
            old(self).wf(),
        ensures
            final(self).wf(),
            final(self).keywords_view() == old(self).keywords_view(),
            final(self).queue_view() == old(self).queue_view(),
            final(self).current_view() == old(self).current_view(),
            final(self).started_view() == old(self).started_view(),
            final(self).limit_view() == old(self).limit_view(),
            final(self).max_depth_view() == old(self).max_depth_view(),
            if old(self).current_view() is Some && old(self).hits_view().len() < old(self).limit_view()
                && matches_keywords(slot@, old(self).keywords_view()) {
                &&& final(self).hits_view().len() == old(self).hits_view().len() + 1
                &&& final(self).hits_view().drop_last() == old(self).hits_view()
                &&& final(self).hits_view().last().path@ == slot_path(old(self).current_path_view(), slot@)
                &&& final(self).hits_view().last().name@ == slot@
                &&& final(self).hits_view().last().value == Some(value)
                &&& final(self).hits_view().last().via == HitVia::Slot
                &&& final(self).hits_view().last().kind is None
            } else {
                final(self).hits_view() == old(self).hits_view()
            },
    {
        let mut p = match &self.current {
            Some((_, p)) => String::from_str(p.as_str()),
            None => return,
        };
        if self.hits.len() >= self.limit || !name_matches(slot, &self.keywords) {
            return;
        }
        crate::text::push_char(&mut p, '.');
        p.append(slot);
        assert(p@ =~= slot_path(old(self).current_path_view(), slot@));
        self.push_hit(Hit { path: p, name: String::from_str(slot), value: Some(value), via: HitVia::Slot, kind: None });
        assert(self.hits@.drop_last() =~= old(self).hits@);
    }

    /// Whether the children of the node being visited are queued: there is
    /// one and it lies above `max_depth`.
    pub fn descends(&self) -> (r: bool)
        ensures
            r == (self.current_view() matches Some((d, _)) && d < self.max_depth_view()),
    {
        match &self.current {
            Some((d, _)) => *d < self.max_depth,
            None => false,
        }
    }

    /// Queues a child of the node being visited, named `name`, one level
    /// deeper under the node's path, `/` and `name`, when the node
    /// `descends`; otherwise nothing changes (`false`).
    pub fn push_child(&mut self, child: H, name: &str) -> (r: bool)
        requires
            old(self).wf(),
        ensures
            final(self).wf(),
            final(self).keywords_view() == old(self).keywords_view(),
            final(self).hits_view() == old(self).hits_view(),
            final(self).current_view() == old(self).current_view(),
            final(self).started_view() == old(self).started_view(),
            final(self).limit_view() == old(self).limit_view(),
            final(self).max_depth_view() == old(self).max_depth_view(),
            r == (old(self).current_view() matches Some((d, _)) && d < old(self).max_depth_view()),
            r ==> {
                let (d, p) = old(self).current_view()->0;
                &&& final(self).queue_view().len() == old(self).queue_view().len() + 1
                &&& final(self).queue_view().drop_last() == old(self).queue_view()
                &&& final(self).queue_view().last().node == child
                &&& final(self).queue_view().last().depth == d + 1
                &&& final(self).queue_view().last().path@ == child_path(p, name@)
            },
            !r ==> final(self).queue_view() == old(self).queue_view(),
    {
        let (depth, path) = match &self.current {
            Some((d, p)) => (*d, p.as_str()),
            None => return false,
        };
        if depth >= self.max_depth {
            return false;
        }
        let child_at = make_child_path(path, name);
        self.queue.push_back(Visit { node: child, depth: depth + 1, path: child_at });
        proof {
            let q0 = old(self).queue@;
            let q = self.queue@;
            assert(q.drop_last() =~= q0);
            assert forall|j: int| 0 <= j < q0.len() implies #[trigger] q[j] == q0[j] by {}
            assert forall|i: int, j: int| 0 <= i <= j < q.len() implies q[i].depth <= q[j].depth by {
                if j < q0.len() {
                    assert(q0[i].depth <= q0[j].depth);
                } else if i < q0.len() {
                    assert(q0[i].depth <= q0.last().depth);
                }
            }
        }
        assert(self.keywords_view() =~= old(self).keywords_view());
        true
    }

    /// The hits, in the order found.
    pub fn into_hits(self) -> (r: Vec<Hit<V>>)
        ensures
            r@ == self.hits_view(),
    {
        self.hits
    }
}

/// The order law of `find`: whatever the caller looks at, every hit found
/// in a SharedObject's slots comes before every hit found on the display
/// list, and there are never more than `limit` hits.
pub proof fn lemma_find_shared_objects_first<H, V>(w: &FindWalk<H, V>)
    requires
        w.wf(),
    ensures
        w.hits_view().len() <= w.limit_view(),
        forall|i: int, j: int|
            0 <= i < j < w.hits_view().len() && #[trigger] w.hits_view()[i].via != HitVia::SharedObjectSlot
                ==> #[trigger] w.hits_view()[j].via != HitVia::SharedObjectSlot,
{
}

} // verus!
