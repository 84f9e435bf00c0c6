//! State of the desktop HTTP bridge: which movie is attached, the RPCs that
//! wait for the main thread, and the paths that are forced every frame.
//!
//! The bridge holds at most `MAX_QUEUE` waiting RPCs; the main thread takes
//! at most `MAX_RPC_PER_FRAME` of them per frame. Each waiting RPC carries a
//! reply handle `R` that the caller answers on.
use vstd::prelude::*;
use std::collections::VecDeque;
use crate::text::{
    chars_of, contains_seq, decimal, find_chars, push_decimal, push_bool, bool_text, trim, trim_bounds,
    slice_vec,
};
use crate::json_text::{
    extract_json_string, extract_json_value_raw, extract_raw_spec, extract_string_spec,
    json_escape_raw, json_quoted, freeze_request, unfreeze_request, plain_text, lemma_freeze_request_path,
    lemma_freeze_request_value, lemma_unfreeze_request_path,
};

verus! {

broadcast use vstd::std_specs::vecdeque::group_vec_dequeue_axioms;

/// The most RPCs that may wait at once.
pub const MAX_QUEUE: usize = 2;

/// The most RPCs that the main thread serves per frame.
pub const MAX_RPC_PER_FRAME: usize = 1;

/// An RPC waiting for the main thread, and where its answer goes.
pub struct PendingRpc<R> {
    pub request: String,
    pub reply: R,
}

/// The bridge's shared state.
pub struct BridgeState<R> {
    title: String,
    has_player: bool,
    queue: VecDeque<PendingRpc<R>>,
    freezes: Vec<(String, String)>,
}

/// The (path, raw value) pairs of a freeze list.
pub open spec fn freeze_pairs(v: Seq<(String, String)>) -> Seq<(Seq<char>, Seq<char>)> {
    Seq::new(v.len(), |i: int| (v[i].0@, v[i].1@))
}

/// No path occurs twice.
pub open spec fn unique_paths(fs: Seq<(Seq<char>, Seq<char>)>) -> bool {
    forall|i: int, j: int| 0 <= i < j < fs.len() ==> #[trigger] fs[i].0 != #[trigger] fs[j].0
}

/// The list without the entries for path `p`, the rest in order.
pub open spec fn remove_path(fs: Seq<(Seq<char>, Seq<char>)>, p: Seq<char>) -> Seq<(Seq<char>, Seq<char>)>
    decreases fs.len(),
{
    if fs.len() == 0 {
        fs
    } else if fs.last().0 == p {
        remove_path(fs.drop_last(), p)
    } else {
        remove_path(fs.drop_last(), p).push(fs.last())
    }
}

/// The value that path `p` is frozen at, if any.
pub open spec fn frozen_value(fs: Seq<(Seq<char>, Seq<char>)>, p: Seq<char>) -> Option<Seq<char>>
    decreases fs.len(),
{
    if fs.len() == 0 {
        None
    } else if fs.last().0 == p {
        Some(fs.last().1)
    } else {
        frozen_value(fs.drop_last(), p)
    }
}

/// `{"ok":true,"frozen":true,"path":P,"value":V,"count":N}`.
pub open spec fn freeze_reply(p: Seq<char>, v: Seq<char>, n: nat) -> Seq<char> {
    "{\"ok\":true,\"frozen\":true,\"path\":"@ + json_quoted(p) + ",\"value\":"@ + v + ",\"count\":"@
        + decimal(n) + "}"@
}

/// `{"ok":true,"unfrozen":true,"path":P,"count":N}`.
pub open spec fn unfreeze_reply(p: Seq<char>, n: nat) -> Seq<char> {
    "{\"ok\":true,\"unfrozen\":true,\"path\":"@ + json_quoted(p) + ",\"count\":"@ + decimal(n) + "}"@
}

/// `{"path":P,"value":V}`.
pub open spec fn freeze_item(e: (Seq<char>, Seq<char>)) -> Seq<char> {
    "{\"path\":"@ + json_quoted(e.0) + ",\"value\":"@ + e.1 + "}"@
}

/// The items of a freeze list joined by commas.
pub open spec fn freeze_items(fs: Seq<(Seq<char>, Seq<char>)>) -> Seq<char>
    decreases fs.len(),
{
    if fs.len() == 0 {
        seq![]
    } else if fs.len() == 1 {
        freeze_item(fs[0])
    } else {
        freeze_items(fs.drop_last()) + seq![','] + freeze_item(fs.last())
    }
}

/// `{"ok":true,"freezes":[...],"count":N}`.
pub open spec fn list_freezes_reply(fs: Seq<(Seq<char>, Seq<char>)>) -> Seq<char> {
    "{\"ok\":true,\"freezes\":["@ + freeze_items(fs) + "],\"count\":"@ + decimal(fs.len()) + "}"@
}

/// The `set` request that applies a freeze for one frame.
pub open spec fn freeze_set_request(p: Seq<char>, v: Seq<char>) -> Seq<char> {
    "{\"op\":\"set\",\"path\":"@ + json_quoted(p) + ",\"value\":"@ + v + "}"@
}

/// `{"ok":true,"mod_bridge":true,"desktop":true,"has_player":B,"title":T,"queue":N}`.
pub open spec fn health_reply(has_player: bool, title: Seq<char>, queue: nat) -> Seq<char> {
    "{\"ok\":true,\"mod_bridge\":true,\"desktop\":true,\"has_player\":"@ + bool_text(has_player)
        + ",\"title\":"@ + json_quoted(title) + ",\"queue\":"@ + decimal(queue) + "}"@
}

/// The jobs whose `keep` entry is true, in order.
pub open spec fn kept_jobs<R>(q: Seq<PendingRpc<R>>, keep: Seq<bool>) -> Seq<PendingRpc<R>>
    decreases q.len(),
{
    if q.len() == 0 || keep.len() != q.len() {
        seq![]
    } else if keep.last() {
        kept_jobs(q.drop_last(), keep.drop_last()).push(q.last())
    } else {
        kept_jobs(q.drop_last(), keep.drop_last())
    }
}

/// The request ops that the desktop bridge answers itself.
#[derive(PartialEq, Eq, Structural, Clone, Copy, Debug)]
pub enum LocalOp {
    Freeze,
    Unfreeze,
    ListFreezes,
}

/// `"op":"NAME"` or `"op": "NAME"` stands in the request.
pub open spec fn names_op(req: Seq<char>, name: Seq<char>) -> bool {
    contains_seq(req, "\"op\":\""@ + name + "\""@) || contains_seq(req, "\"op\": \""@ + name + "\""@)
}

/// Which local op a request (already trimmed) names, checked in the order
/// freeze, unfreeze, list_freezes.
pub open spec fn local_op_of(req: Seq<char>) -> Option<LocalOp> {
    if names_op(req, "freeze"@) {
        Some(LocalOp::Freeze)
    } else if names_op(req, "unfreeze"@) {
        Some(LocalOp::Unfreeze)
    } else if names_op(req, "list_freezes"@) {
        Some(LocalOp::ListFreezes)
    } else {
        None
    }
}

/// The bridge answers a freeze request itself whichever way the client
/// spaced the op: a request holding `"op":"freeze"` or `"op": "freeze"` is a
/// freeze; failing that, one holding `"op":"unfreeze"` or `"op": "unfreeze"`
/// is an unfreeze; failing that, one holding `"op":"list_freezes"` or
/// `"op": "list_freezes"` lists the freezes; any other goes on to the player.
pub proof fn lemma_local_op_spellings(r: Seq<char>)
    ensures
        contains_seq(r, "\"op\":\"freeze\""@) || contains_seq(r, "\"op\": \"freeze\""@) ==> local_op_of(r)
            == Some(LocalOp::Freeze),
        !(contains_seq(r, "\"op\":\"freeze\""@) || contains_seq(r, "\"op\": \"freeze\""@)) && (contains_seq(
            r,
            "\"op\":\"unfreeze\""@,
        ) || contains_seq(r, "\"op\": \"unfreeze\""@)) ==> local_op_of(r) == Some(LocalOp::Unfreeze),
        !(contains_seq(r, "\"op\":\"freeze\""@) || contains_seq(r, "\"op\": \"freeze\""@)) && !(contains_seq(
            r,
            "\"op\":\"unfreeze\""@,
        ) || contains_seq(r, "\"op\": \"unfreeze\""@)) && (contains_seq(r, "\"op\":\"list_freezes\""@)
            || contains_seq(r, "\"op\": \"list_freezes\""@)) ==> local_op_of(r) == Some(LocalOp::ListFreezes),
        !(contains_seq(r, "\"op\":\"freeze\""@) || contains_seq(r, "\"op\": \"freeze\""@)) && !(contains_seq(
            r,
            "\"op\":\"unfreeze\""@,
        ) || contains_seq(r, "\"op\": \"unfreeze\""@)) && !(contains_seq(r, "\"op\":\"list_freezes\""@)
            || contains_seq(r, "\"op\": \"list_freezes\""@)) ==> local_op_of(r) is None,
{
    reveal_strlit("\"op\":\"freeze\"");
    reveal_strlit("\"op\": \"freeze\"");
    reveal_strlit("\"op\":\"unfreeze\"");
    reveal_strlit("\"op\": \"unfreeze\"");
    reveal_strlit("\"op\":\"list_freezes\"");
    reveal_strlit("\"op\": \"list_freezes\"");
    reveal_strlit("\"op\":\"");
    reveal_strlit("\"op\": \"");
    reveal_strlit("\"");
    reveal_strlit("freeze");
    reveal_strlit("unfreeze");
    reveal_strlit("list_freezes");
    assert("\"op\":\"freeze\""@ =~= "\"op\":\""@ + "freeze"@ + "\""@);
    assert("\"op\": \"freeze\""@ =~= "\"op\": \""@ + "freeze"@ + "\""@);
    assert("\"op\":\"unfreeze\""@ =~= "\"op\":\""@ + "unfreeze"@ + "\""@);
    assert("\"op\": \"unfreeze\""@ =~= "\"op\": \""@ + "unfreeze"@ + "\""@);
    assert("\"op\":\"list_freezes\""@ =~= "\"op\":\""@ + "list_freezes"@ + "\""@);
    assert("\"op\": \"list_freezes\""@ =~= "\"op\": \""@ + "list_freezes"@ + "\""@);
}

fn contains_text(hay: &[char], needle: &str) -> (r: bool)
    ensures
        r == contains_seq(hay@, needle@),
{
    let n = chars_of(needle);
    match find_chars(hay, &n) {
        Some(_) => true,
        None => false,
    }
}

fn names_op_exec(req: &[char], plain: &str, spaced: &str, name: Ghost<Seq<char>>) -> (r: bool)
    requires
        plain@ == "\"op\":\""@ + name@ + "\""@,
        spaced@ == "\"op\": \""@ + name@ + "\""@,
    ensures
        r == names_op(req@, name@),
{
    contains_text(req, plain) || contains_text(req, spaced)
}

/// Which op a request names, where it is one the bridge answers itself.
pub fn local_op(request: &str) -> (r: Option<LocalOp>)
    ensures
        r == local_op_of(trim(request@)),
{
    let all = chars_of(request);
    let (a, b) = trim_bounds(&all, 0, all.len());
    let req = slice_vec(&all, a, b);
    assert(all@.subrange(0, all@.len() as int) =~= all@);
    proof {
        reveal_strlit("\"op\":\"freeze\"");
        reveal_strlit("\"op\": \"freeze\"");
        reveal_strlit("\"op\":\"unfreeze\"");
        reveal_strlit("\"op\": \"unfreeze\"");
        reveal_strlit("\"op\":\"list_freezes\"");
        reveal_strlit("\"op\": \"list_freezes\"");
        reveal_strlit("\"op\":\"");
        reveal_strlit("\"op\": \"");
        reveal_strlit("\"");
        reveal_strlit("freeze");
        reveal_strlit("unfreeze");
        reveal_strlit("list_freezes");
        assert("\"op\":\"freeze\""@ =~= "\"op\":\""@ + "freeze"@ + "\""@);
        assert("\"op\": \"freeze\""@ =~= "\"op\": \""@ + "freeze"@ + "\""@);
        assert("\"op\":\"unfreeze\""@ =~= "\"op\":\""@ + "unfreeze"@ + "\""@);
        assert("\"op\": \"unfreeze\""@ =~= "\"op\": \""@ + "unfreeze"@ + "\""@);
        assert("\"op\":\"list_freezes\""@ =~= "\"op\":\""@ + "list_freezes"@ + "\""@);
        assert("\"op\": \"list_freezes\""@ =~= "\"op\": \""@ + "list_freezes"@ + "\""@);
    }
    if names_op_exec(&req, "\"op\":\"freeze\"", "\"op\": \"freeze\"", Ghost("freeze"@)) {
        Some(LocalOp::Freeze)
    } else if names_op_exec(&req, "\"op\":\"unfreeze\"", "\"op\": \"unfreeze\"", Ghost("unfreeze"@)) {
        Some(LocalOp::Unfreeze)
    } else if names_op_exec(&req, "\"op\":\"list_freezes\"", "\"op\": \"list_freezes\"", Ghost("list_freezes"@)) {
        Some(LocalOp::ListFreezes)
    } else {
        None
    }
}


/// What `remove_path` keeps and drops.
pub proof fn lemma_remove_path(fs: Seq<(Seq<char>, Seq<char>)>, p: Seq<char>)
    ensures
        forall|i: int| 0 <= i < remove_path(fs, p).len() ==> (#[trigger] remove_path(fs, p)[i]).0 != p,
        forall|i: int| 0 <= i < remove_path(fs, p).len() ==> fs.contains(#[trigger] remove_path(fs, p)[i]),
        unique_paths(fs) ==> unique_paths(remove_path(fs, p)),
        frozen_value(fs, p) is None ==> remove_path(fs, p) == fs,
        frozen_value(remove_path(fs, p), p) is None,
        forall|q: Seq<char>| q != p ==> #[trigger] frozen_value(remove_path(fs, p), q) == frozen_value(fs, q),
    decreases fs.len(),
{
    if fs.len() > 0 {
        let init = fs.drop_last();
        lemma_remove_path(init, p);
        let r0 = remove_path(init, p);
        assert forall|i: int| 0 <= i < r0.len() implies fs.contains(#[trigger] r0[i]) by {
            let k = choose|k: int| 0 <= k < init.len() && init[k] == r0[i];
            assert(fs[k] == init[k]);
        }
        assert forall|q: Seq<char>| q != p implies #[trigger] frozen_value(remove_path(fs, p), q) == frozen_value(fs, q) by {
            if fs.last().0 != p {
                assert(remove_path(fs, p).drop_last() =~= r0);
                assert(frozen_value(r0, q) == frozen_value(init, q));
            } else {
                assert(remove_path(fs, p) == r0);
                assert(frozen_value(r0, q) == frozen_value(init, q));
            }
        }
        if fs.last().0 != p {
            let r = r0.push(fs.last());
            assert(r =~= remove_path(fs, p));
            assert(r.drop_last() =~= r0);
            assert(frozen_value(r, p) == frozen_value(r0, p));
            assert forall|i: int| 0 <= i < r.len() implies fs.contains(#[trigger] r[i]) by {
                if i == r0.len() {
                    assert(fs[fs.len() - 1] == r[i]);
                }
            }
            if unique_paths(fs) {
                assert(unique_paths(init)) by {
                    assert forall|i: int, j: int| 0 <= i < j < init.len() implies #[trigger] init[i].0 != #[trigger] init[j].0 by {
                        assert(init[i] == fs[i] && init[j] == fs[j]);
                    }
                }
                assert forall|i: int, j: int| 0 <= i < j < r.len() implies #[trigger] r[i].0 != #[trigger] r[j].0 by {
                    if j == r0.len() {
                        let k = choose|k: int| 0 <= k < init.len() && init[k] == r0[i];
                        assert(fs[k] == init[k]);
                        assert(fs[k].0 != fs[fs.len() - 1].0);
                    }
                }
            }
            if frozen_value(fs, p) is None {
                assert(init.push(fs.last()) =~= fs);
            }
        } else {
            if frozen_value(fs, p) is None {
                assert(false);
            }
        }
    }
}

/// Freezing `p` at `v` replaces whatever `p` was frozen at, and leaves the
/// other paths as they were.
pub proof fn lemma_freeze_sets(fs: Seq<(Seq<char>, Seq<char>)>, p: Seq<char>, v: Seq<char>, q: Seq<char>)
    ensures
        frozen_value(remove_path(fs, p).push((p, v)), p) == Some(v),
        q != p ==> frozen_value(remove_path(fs, p).push((p, v)), q) == frozen_value(fs, q),
        unique_paths(fs) ==> unique_paths(remove_path(fs, p).push((p, v))),
{
    lemma_remove_path(fs, p);
    let r = remove_path(fs, p);
    let s = r.push((p, v));
    assert(s.drop_last() =~= r);
    if q != p {
        assert(frozen_value(s, q) == frozen_value(r, q));
    }
    if unique_paths(fs) {
        assert forall|i: int, j: int| 0 <= i < j < s.len() implies #[trigger] s[i].0 != #[trigger] s[j].0 by {
            if j == r.len() {
                assert(s[i] == r[i]);
            } else {
                assert(s[i] == r[i] && s[j] == r[j]);
            }
        }
    }
}

/// Unfreezing `p` leaves no value for `p` and the other paths as they were.
pub proof fn lemma_unfreeze_clears(fs: Seq<(Seq<char>, Seq<char>)>, p: Seq<char>, q: Seq<char>)
    ensures
        frozen_value(remove_path(fs, p), p) is None,
        q != p ==> frozen_value(remove_path(fs, p), q) == frozen_value(fs, q),
        unique_paths(fs) ==> unique_paths(remove_path(fs, p)),
{
    lemma_remove_path(fs, p);
}

/// Unfreezing undoes freezing: freezing a path that was not frozen and then
/// unfreezing it gives back the list as it was.
pub proof fn lemma_unfreeze_undoes_freeze(fs: Seq<(Seq<char>, Seq<char>)>, p: Seq<char>, v: Seq<char>)
    requires
        frozen_value(fs, p) is None,
    ensures
        remove_path(remove_path(fs, p).push((p, v)), p) == fs,
{
    lemma_remove_path(fs, p);
    let r = remove_path(fs, p);
    assert(r.push((p, v)).drop_last() =~= r);
    assert(r.push((p, v)).last().0 == p);
}

/// Unfreezing undoes freezing, request for request: for a plain path `p`
/// that `fs` does not freeze, the bridge reads `p` and `0` from
/// `{"op":"freeze","path":P,"value":0}` (so `op_freeze` leaves
/// `remove_path(fs, p)` followed by `(p, 0)`), reads `p` from
/// `{"op":"unfreeze","path":P}`, and unfreezing `p` then gives back `fs`
/// (so `op_unfreeze` answers with the count of `fs`).
pub proof fn lemma_unfreeze_request_undoes_freeze_request(fs: Seq<(Seq<char>, Seq<char>)>, p: Seq<char>)
    requires
        frozen_value(fs, p) is None,
        plain_text(p),
    ensures
        extract_string_spec(freeze_request(p, "0"@), "path"@) == Some(p),
        extract_raw_spec(freeze_request(p, "0"@), "value"@) == Some("0"@),
        extract_string_spec(unfreeze_request(p), "path"@) == Some(p),
        remove_path(remove_path(fs, p).push((p, "0"@)), p) == fs,
{
    let tail = ",\"value\":"@ + "0"@ + "}"@;
    assert(freeze_request(p, "0"@) =~= "{\"op\":\"freeze\",\"path\":"@ + json_quoted(p) + tail);
    lemma_freeze_request_path(p, tail);
    lemma_freeze_request_value(p);
    lemma_unfreeze_request_path(p, "}"@);
    lemma_unfreeze_undoes_freeze(fs, p, "0"@);
}

impl<R> BridgeState<R> {
    /// The title of the attached movie.
    pub closed spec fn title_view(&self) -> Seq<char> {
        self.title@
    }

    /// Whether a movie is attached.
    pub closed spec fn has_player_view(&self) -> bool {
        self.has_player
    }

    /// The waiting RPCs, oldest first.
    pub closed spec fn queue_view(&self) -> Seq<PendingRpc<R>> {
        self.queue@
    }

    /// The frozen (path, raw value) pairs, in the order they were set.
    pub closed spec fn freezes_view(&self) -> Seq<(Seq<char>, Seq<char>)> {
        freeze_pairs(self.freezes@)
    }

    /// What every state of the bridge keeps: at most `MAX_QUEUE` waiting
    /// RPCs, and no path frozen twice.
    pub open spec fn wf(&self) -> bool {
        &&& self.queue_view().len() <= MAX_QUEUE
        &&& unique_paths(self.freezes_view())
    }

    /// The state before any movie is attached.
    pub fn new() -> (s: Self)
        ensures
            s.wf(),
            s.title_view() == Seq::<char>::empty(),
            !s.has_player_view(),
            s.queue_view().len() == 0,
            s.freezes_view().len() == 0,
    {
        BridgeState { title: String::new(), has_player: false, queue: VecDeque::new(), freezes: Vec::new() }
    }

    /// Records that a movie with `title` is attached.
    pub fn attach(&mut self, title: String)
        requires
            old(self).wf(),
        ensures
            final(self).wf(),
            final(self).title_view() == title@,
            final(self).has_player_view(),
            final(self).queue_view() == old(self).queue_view(),
            final(self).freezes_view() == old(self).freezes_view(),
    {
        self.title = title;
        self.has_player = true;
    }

    /// Records that the movie closed: clears the title, fails every waiting
    /// RPC (returned oldest first, each with the reply to send) and drops
    /// every freeze.
    pub fn detach(&mut self) -> (failed: Vec<(R, String)>)
        requires
            old(self).wf(),
        ensures
            final(self).wf(),
            final(self).title_view() == Seq::<char>::empty(),
            !final(self).has_player_view(),
            final(self).queue_view().len() == 0,
            final(self).freezes_view().len() == 0,
            failed@.len() == old(self).queue_view().len(),
            forall|i: int| 0 <= i < failed@.len() ==> {
                &&& #[trigger] failed@[i].0 == old(self).queue_view()[i].reply
                &&& failed@[i].1@ == "{\"ok\":false,\"error\":\"player detached\"}"@
            },
    {
        self.title = String::new();
        self.has_player = false;
        let mut failed: Vec<(R, String)> = Vec::new();
        let ghost q0 = self.queue@;
        while self.queue.len() > 0
            invariant
                self.title@ == Seq::<char>::empty(),
                !self.has_player,
                failed@.len() + self.queue@.len() == q0.len(),
                self.queue@ == q0.subrange(failed@.len() as int, q0.len() as int),
                forall|i: int| 0 <= i < failed@.len() ==> {
                    &&& #[trigger] failed@[i].0 == q0[i].reply
                    &&& failed@[i].1@ == "{\"ok\":false,\"error\":\"player detached\"}"@
                },
            decreases self.queue@.len(),
        {
            match self.queue.pop_front() {
                Some(job) => {
                    failed.push((job.reply, String::from_str("{\"ok\":false,\"error\":\"player detached\"}")));
                    assert(self.queue@ =~= q0.subrange(failed@.len() as int, q0.len() as int));
                },
                None => {},
            }
        }
        self.freezes.clear();
        proof {
            assert(freeze_pairs(self.freezes@) =~= Seq::<(Seq<char>, Seq<char>)>::empty());
        }
        failed
    }

    fn remove_frozen(&mut self, path: &String)
        requires
            old(self).wf(),
        ensures
            final(self).freezes_view() == remove_path(old(self).freezes_view(), path@),
            final(self).title_view() == old(self).title_view(),
            final(self).has_player_view() == old(self).has_player_view(),
            final(self).queue_view() == old(self).queue_view(),
            final(self).wf(),
    {
        let ghost f0 = self.freezes_view();
        let mut i: usize = 0;
        let ghost mut k: int = 0;
        proof {
            assert(f0.take(0) =~= Seq::<(Seq<char>, Seq<char>)>::empty());
            assert(freeze_pairs(self.freezes@) =~= remove_path(f0.take(0), path@) + f0.skip(0));
        }
        while i < self.freezes.len()
            invariant
                0 <= k <= f0.len(),
                i == remove_path(f0.take(k), path@).len(),
                freeze_pairs(self.freezes@) == remove_path(f0.take(k), path@) + f0.skip(k),
                self.title@ == old(self).title@,
                self.has_player == old(self).has_player,
                self.queue@ == old(self).queue@,
            decreases self.freezes@.len() - i,
        {
            let ghost before = freeze_pairs(self.freezes@);
            proof {
                assert(before[i as int] == f0[k]);
                assert(f0.take(k + 1).drop_last() =~= f0.take(k));
                assert(f0.take(k + 1).last() == f0[k]);
            }
            if self.freezes[i].0 == *path {
                proof {
                    assert(before[i as int].0 == self.freezes@[i as int].0@);
                    assert(f0[k].0 == path@);
                    assert(remove_path(f0.take(k + 1), path@) == remove_path(f0.take(k), path@));
                }
                self.freezes.remove(i);
                proof {
                    assert(freeze_pairs(self.freezes@) =~= before.remove(i as int));
                    assert(before.remove(i as int) =~= remove_path(f0.take(k), path@) + f0.skip(k + 1));
                    assert(freeze_pairs(self.freezes@) =~= remove_path(f0.take(k + 1), path@) + f0.skip(k + 1));
                }
            } else {
                proof {
                    assert(before[i as int].0 == self.freezes@[i as int].0@);
                    assert(f0[k].0 != path@);
                    assert(remove_path(f0.take(k + 1), path@) == remove_path(f0.take(k), path@).push(f0[k]));
                    assert(freeze_pairs(self.freezes@) =~= remove_path(f0.take(k + 1), path@) + f0.skip(k + 1));
                }
                i = i + 1;
            }
            proof {
                k = k + 1;
            }
        }
        proof {
            if k < f0.len() {
                assert(freeze_pairs(self.freezes@).len() > i);
            }
            assert(f0.take(k) =~= f0);
            assert(f0.skip(k) =~= Seq::<(Seq<char>, Seq<char>)>::empty());
            assert(freeze_pairs(self.freezes@) =~= remove_path(f0, path@));
            lemma_remove_path(f0, path@);
        }
    }

    /// Handles `freeze`: the request's `path` (a string field) is forced to its
    /// `value` (raw JSON text) every frame from now on, replacing any earlier
    /// freeze of that path.
    pub fn op_freeze(&mut self, blob: &str) -> (reply: String)
        requires
            old(self).wf(),
        ensures
            final(self).wf(),
            final(self).title_view() == old(self).title_view(),
            final(self).has_player_view() == old(self).has_player_view(),
            final(self).queue_view() == old(self).queue_view(),
            match (extract_string_spec(blob@, "path"@), extract_raw_spec(blob@, "value"@)) {
                (Some(p), Some(v)) => {
                    &&& final(self).freezes_view() == remove_path(old(self).freezes_view(), p).push((p, v))
                    &&& reply@ == freeze_reply(p, v, final(self).freezes_view().len())
                },
                (None, _) => {
                    &&& final(self).freezes_view() == old(self).freezes_view()
                    &&& reply@ == "{\"ok\":false,\"error\":\"freeze needs path\"}"@
                },
                (Some(_), None) => {
                    &&& final(self).freezes_view() == old(self).freezes_view()
                    &&& reply@ == "{\"ok\":false,\"error\":\"freeze needs value\"}"@
                },
            },
    {
        let path = match extract_json_string(blob, "path") {
            Some(p) => p,
            None => return String::from_str("{\"ok\":false,\"error\":\"freeze needs path\"}"),
        };
        let value = match extract_json_value_raw(blob, "value") {
            Some(v) => v,
            None => return String::from_str("{\"ok\":false,\"error\":\"freeze needs value\"}"),
        };
        self.remove_frozen(&path);
        let ghost removed = self.freezes_view();
        let mut reply = String::from_str("{\"ok\":true,\"frozen\":true,\"path\":");
        reply.append(json_escape_raw(path.as_str()).as_str());
        reply.append(",\"value\":");
        reply.append(value.as_str());
        reply.append(",\"count\":");
        let ghost pv = (path@, value@);
        self.freezes.push((path, value));
        proof {
            assert(freeze_pairs(self.freezes@) =~= removed.push(pv));
            lemma_freeze_sets(old(self).freezes_view(), pv.0, pv.1, pv.0);
        }
        push_decimal(&mut reply, self.freezes.len());
        reply.append("}");
        reply
    }

    /// Handles `unfreeze`: with a `path`, drops the freeze of that path;
    /// without one, drops every freeze.
    pub fn op_unfreeze(&mut self, blob: &str) -> (reply: String)
        requires
            old(self).wf(),
        ensures
            final(self).wf(),
            final(self).title_view() == old(self).title_view(),
            final(self).has_player_view() == old(self).has_player_view(),
            final(self).queue_view() == old(self).queue_view(),
            match extract_string_spec(blob@, "path"@) {
                Some(p) => {
                    &&& final(self).freezes_view() == remove_path(old(self).freezes_view(), p)
                    &&& reply@ == unfreeze_reply(p, final(self).freezes_view().len())
                },
                None => {
                    &&& final(self).freezes_view().len() == 0
                    &&& reply@ == "{\"ok\":true,\"unfrozen\":\"all\",\"count\":0}"@
                },
            },
    {
        match extract_json_string(blob, "path") {
            Some(p) => {
                self.remove_frozen(&p);
                let mut reply = String::from_str("{\"ok\":true,\"unfrozen\":true,\"path\":");
                reply.append(json_escape_raw(p.as_str()).as_str());
                reply.append(",\"count\":");
                push_decimal(&mut reply, self.freezes.len());
                reply.append("}");
                reply
            },
            None => {
                self.freezes.clear();
                assert(freeze_pairs(self.freezes@) =~= Seq::<(Seq<char>, Seq<char>)>::empty());
                String::from_str("{\"ok\":true,\"unfrozen\":\"all\",\"count\":0}")
            },
        }
    }

    /// Handles `list_freezes`: every freeze, in the order they were set.
    pub fn op_list_freezes(&self) -> (reply: String)
        ensures
            reply@ == list_freezes_reply(self.freezes_view()),
    {
        let ghost fs = self.freezes_view();
        let mut reply = String::from_str("{\"ok\":true,\"freezes\":[");
        let ghost head = reply@;
        let mut i: usize = 0;
        while i < self.freezes.len()
            invariant
                i <= self.freezes@.len(),
                fs == freeze_pairs(self.freezes@),
                reply@ == head + freeze_items(fs.take(i as int)),
            decreases self.freezes@.len() - i,
        {
            let ghost before = reply@;
            if i > 0 {
                reply.append(",");
            }
            reply.append("{\"path\":");
            reply.append(json_escape_raw(self.freezes[i].0.as_str()).as_str());
            reply.append(",\"value\":");
            reply.append(self.freezes[i].1.as_str());
            reply.append("}");
            proof {
                reveal_strlit(",");
                assert(fs[i as int] == (self.freezes@[i as int].0@, self.freezes@[i as int].1@));
                assert(fs.take(i + 1).drop_last() =~= fs.take(i as int));
                assert(fs.take(i + 1).last() == fs[i as int]);
                if i == 0 {
                    assert(fs.take(1).len() == 1);
                    assert(fs.take(1)[0] == fs[0]);
                    assert(reply@ =~= head + freeze_items(fs.take(1)));
                } else {
                    assert(reply@ =~= head + freeze_items(fs.take(i + 1)));
                }
            }
            i = i + 1;
        }
        assert(fs.take(i as int) =~= fs);
        reply.append("],\"count\":");
        push_decimal(&mut reply, self.freezes.len());
        reply.append("}");
        reply
    }

    /// The `set` requests that apply every freeze for one frame, in order.
    pub fn freeze_requests(&self) -> (reqs: Vec<String>)
        ensures
            reqs@.len() == self.freezes_view().len(),
            forall|i: int| 0 <= i < reqs@.len() ==>
                (#[trigger] reqs@[i])@ == freeze_set_request(self.freezes_view()[i].0, self.freezes_view()[i].1),
    {
        let mut reqs: Vec<String> = Vec::new();
        let mut i: usize = 0;
        while i < self.freezes.len()
            invariant
                i <= self.freezes@.len(),
                reqs@.len() == i,
                forall|j: int| 0 <= j < i ==>
                    (#[trigger] reqs@[j])@ == freeze_set_request(self.freezes_view()[j].0, self.freezes_view()[j].1),
            decreases self.freezes@.len() - i,
        {
            let mut r = String::from_str("{\"op\":\"set\",\"path\":");
            r.append(json_escape_raw(self.freezes[i].0.as_str()).as_str());
            r.append(",\"value\":");
            r.append(self.freezes[i].1.as_str());
            r.append("}");
            assert(r@ =~= freeze_set_request(self.freezes_view()[i as int].0, self.freezes_view()[i as int].1));
            reqs.push(r);
            i = i + 1;
        }
        reqs
    }

    /// The body of `GET /health`.
    pub fn health_body(&self) -> (body: String)
        ensures
            body@ == health_reply(self.has_player_view(), self.title_view(), self.queue_view().len()),
    {
        let mut body = String::from_str("{\"ok\":true,\"mod_bridge\":true,\"desktop\":true,\"has_player\":");
        push_bool(&mut body, self.has_player);
        body.append(",\"title\":");
        body.append(json_escape_raw(self.title.as_str()).as_str());
        body.append(",\"queue\":");
        push_decimal(&mut body, self.queue.len());
        body.append("}");
        body
    }

    /// Admits an RPC to wait for the main thread: refused while no movie is
    /// attached, and while `MAX_QUEUE` RPCs already wait; the reply handle
    /// comes back with the refusal.
    pub fn enqueue_rpc(&mut self, request: String, reply: R) -> (r: Result<(), (R, String)>)
        requires
            old(self).wf(),
        ensures
            final(self).wf(),
            final(self).title_view() == old(self).title_view(),
            final(self).has_player_view() == old(self).has_player_view(),
            final(self).freezes_view() == old(self).freezes_view(),
            !old(self).has_player_view() ==> {
                &&& r matches Err((back, msg)) && back == reply
                    && msg@ == "{\"ok\":false,\"error\":\"no movie loaded yet\"}"@
                &&& final(self).queue_view() == old(self).queue_view()
            },
            old(self).has_player_view() && old(self).queue_view().len() >= MAX_QUEUE ==> {
                &&& r matches Err((back, msg)) && back == reply
                    && msg@ == "{\"ok\":false,\"error\":\"mod-bridge busy \u{2014} one RPC at a time, retry\"}"@
                &&& final(self).queue_view() == old(self).queue_view()
            },
            old(self).has_player_view() && old(self).queue_view().len() < MAX_QUEUE ==> {
                &&& r is Ok
                &&& final(self).queue_view() == old(self).queue_view().push(PendingRpc { request, reply })
            },
    {
        if !self.has_player {
            return Err((reply, String::from_str("{\"ok\":false,\"error\":\"no movie loaded yet\"}")));
        }
        if self.queue.len() >= MAX_QUEUE {
            return Err((reply, String::from_str("{\"ok\":false,\"error\":\"mod-bridge busy \u{2014} one RPC at a time, retry\"}")));
        }
        self.queue.push_back(PendingRpc { request, reply });
        Ok(())
    }

    /// Takes the RPCs the main thread serves this frame: the oldest ones, at
    /// most `MAX_RPC_PER_FRAME`.
    pub fn take_frame_jobs(&mut self) -> (jobs: Vec<PendingRpc<R>>)
        requires
            old(self).wf(),
        ensures
            final(self).wf(),
            final(self).title_view() == old(self).title_view(),
            final(self).has_player_view() == old(self).has_player_view(),
            final(self).freezes_view() == old(self).freezes_view(),
            ({
                let n = if old(self).queue_view().len() < MAX_RPC_PER_FRAME {
                    old(self).queue_view().len() as int
                } else {
                    MAX_RPC_PER_FRAME as int
                };
                &&& jobs@ == old(self).queue_view().take(n)
                &&& final(self).queue_view() == old(self).queue_view().skip(n)
            }),
    {
        let mut jobs: Vec<PendingRpc<R>> = Vec::new();
        let ghost q0 = self.queue@;
        while jobs.len() < MAX_RPC_PER_FRAME && self.queue.len() > 0
            invariant
                jobs@.len() <= MAX_RPC_PER_FRAME,
                jobs@.len() <= q0.len(),
                jobs@ == q0.take(jobs@.len() as int),
                self.queue@ == q0.skip(jobs@.len() as int),
                self.title@ == old(self).title@,
                self.has_player == old(self).has_player,
                self.freezes@ == old(self).freezes@,
                q0 == old(self).queue@,
                q0.len() <= MAX_QUEUE,
            decreases self.queue@.len(),
        {
            let ghost n: int = jobs@.len() as int;
            match self.queue.pop_front() {
                Some(job) => {
                    jobs.push(job);
                    assert(jobs@ =~= q0.take(n + 1));
                    assert(self.queue@ =~= q0.skip(n + 1));
                },
                None => {},
            }
        }
        assert(self.freezes_view() == old(self).freezes_view());
        assert(self.queue@.len() <= q0.len());
        jobs
    }

    /// How many RPCs wait.
    pub fn queue_len(&self) -> (n: usize)
        ensures
            n == self.queue_view().len(),
    {
        self.queue.len()
    }

    /// The reply handle of the `i`-th waiting RPC, oldest first.
    pub fn reply_at(&self, i: usize) -> (r: &R)
        requires
            i < self.queue_view().len(),
        ensures
            *r == self.queue_view()[i as int].reply,
    {
        &self.queue[i].reply
    }

    /// Keeps the waiting RPCs whose `keep` entry is true, in order; the
    /// caller decides (after a timeout, the bridge keeps the RPCs whose
    /// caller still listens).
    pub fn retain_jobs(&mut self, keep: &Vec<bool>)
        requires
            old(self).wf(),
            keep@.len() == old(self).queue_view().len(),
        ensures
            final(self).wf(),
            final(self).title_view() == old(self).title_view(),
            final(self).has_player_view() == old(self).has_player_view(),
            final(self).freezes_view() == old(self).freezes_view(),
            final(self).queue_view() == kept_jobs(old(self).queue_view(), keep@),
    {
        let ghost q0 = self.queue@;
        let n = self.queue.len();
        let mut i: usize = 0;
        while i < n
            invariant
                i <= n,
                n == q0.len(),
                keep@.len() == n,
                self.queue@ == q0.skip(i as int) + kept_jobs(q0.take(i as int), keep@.take(i as int)),
                kept_jobs(q0.take(i as int), keep@.take(i as int)).len() <= i,
                self.title@ == old(self).title@,
                self.has_player == old(self).has_player,
                self.freezes@ == old(self).freezes@,
                q0 == old(self).queue@,
                q0.len() <= MAX_QUEUE,
            decreases n - i,
        {
            let ghost k0 = kept_jobs(q0.take(i as int), keep@.take(i as int));
            proof {
                assert(q0.take(i + 1).drop_last() =~= q0.take(i as int));
                assert(keep@.take(i + 1).drop_last() =~= keep@.take(i as int));
                assert(q0.take(i + 1).last() == q0[i as int]);
                assert(keep@.take(i + 1).last() == keep@[i as int]);
            }
            match self.queue.pop_front() {
                Some(job) => {
                    assert(job == q0[i as int]);
                    if keep[i] {
                        self.queue.push_back(job);
                        assert(self.queue@ =~= q0.skip(i + 1) + k0.push(q0[i as int]));
                    } else {
                        assert(self.queue@ =~= q0.skip(i + 1) + k0);
                    }
                },
                None => {
                    assert(false);
                },
            }
            i = i + 1;
        }
        assert(q0.take(n as int) =~= q0);
        assert(keep@.take(n as int) =~= keep@);
        assert(q0.skip(n as int) + kept_jobs(q0, keep@) =~= kept_jobs(q0, keep@));
    }

    /// Answers the requests that the desktop bridge handles itself
    /// (`freeze`, `unfreeze`, `list_freezes`, told apart by plain text
    /// search in the trimmed request); `None` for every other request, which
    /// goes on to the player.
    pub fn handle_local_rpc(&mut self, request: &str) -> (reply: Option<String>)
        requires
            old(self).wf(),
        ensures
            final(self).wf(),
            final(self).title_view() == old(self).title_view(),
            final(self).has_player_view() == old(self).has_player_view(),
            final(self).queue_view() == old(self).queue_view(),
            match local_op_of(trim(request@)) {
                None => reply is None && final(self).freezes_view() == old(self).freezes_view(),
                Some(LocalOp::ListFreezes) => reply matches Some(r)
                    && r@ == list_freezes_reply(old(self).freezes_view())
                    && final(self).freezes_view() == old(self).freezes_view(),
                Some(LocalOp::Freeze) => reply matches Some(r) && ({
                    let blob = trim(request@);
                    match (extract_string_spec(blob, "path"@), extract_raw_spec(blob, "value"@)) {
                        (Some(p), Some(v)) => {
                            &&& final(self).freezes_view() == remove_path(old(self).freezes_view(), p).push((p, v))
                            &&& r@ == freeze_reply(p, v, final(self).freezes_view().len())
                        },
                        (None, _) => {
                            &&& final(self).freezes_view() == old(self).freezes_view()
                            &&& r@ == "{\"ok\":false,\"error\":\"freeze needs path\"}"@
                        },
                        (Some(_), None) => {
                            &&& final(self).freezes_view() == old(self).freezes_view()
                            &&& r@ == "{\"ok\":false,\"error\":\"freeze needs value\"}"@
                        },
                    }
                }),
                Some(LocalOp::Unfreeze) => reply matches Some(r) && ({
                    match extract_string_spec(trim(request@), "path"@) {
                        Some(p) => {
                            &&& final(self).freezes_view() == remove_path(old(self).freezes_view(), p)
                            &&& r@ == unfreeze_reply(p, final(self).freezes_view().len())
                        },
                        None => {
                            &&& final(self).freezes_view().len() == 0
                            &&& r@ == "{\"ok\":true,\"unfrozen\":\"all\",\"count\":0}"@
                        },
                    }
                }),
            },
    {
        let op = local_op(request);
        match op {
            None => None,
            Some(op) => {
                let all = chars_of(request);
                let (a, b) = trim_bounds(&all, 0, all.len());
                assert(all@.subrange(0, all@.len() as int) =~= all@);
                let trimmed = crate::text::string_of(&slice_vec(&all, a, b));
                match op {
                    LocalOp::Freeze => Some(self.op_freeze(trimmed.as_str())),
                    LocalOp::Unfreeze => Some(self.op_unfreeze(trimmed.as_str())),
                    LocalOp::ListFreezes => Some(self.op_list_freezes()),
                }
            },
        }
    }
}

/// Records that a movie with `title` is attached to the bridge.
pub fn attach_player<R>(state: &mut BridgeState<R>, title: String)
    requires
        old(state).wf(),
    ensures
        final(state).wf(),
        final(state).title_view() == title@,
        final(state).has_player_view(),
        final(state).queue_view() == old(state).queue_view(),
        final(state).freezes_view() == old(state).freezes_view(),
{
    state.attach(title);
}

/// Records that the movie closed: clears the title, fails every waiting RPC
/// (returned oldest first, each with the reply to send) and drops every
/// freeze.
pub fn detach_player<R>(state: &mut BridgeState<R>) -> (failed: Vec<(R, String)>)
    requires
        old(state).wf(),
    ensures
        final(state).wf(),
        final(state).title_view() == Seq::<char>::empty(),
        !final(state).has_player_view(),
        final(state).queue_view().len() == 0,
        final(state).freezes_view().len() == 0,
        failed@.len() == old(state).queue_view().len(),
        forall|i: int| 0 <= i < failed@.len() ==> {
            &&& #[trigger] failed@[i].0 == old(state).queue_view()[i].reply
            &&& failed@[i].1@ == "{\"ok\":false,\"error\":\"player detached\"}"@
        },
{
    state.detach()
}

/// The work of one frame on the main thread: the `set` requests that apply
/// every freeze (in the order they were set), then the RPCs served this
/// frame (the oldest, at most `MAX_RPC_PER_FRAME`), taken off the queue.
pub fn poll_pending<R>(state: &mut BridgeState<R>) -> (work: (Vec<String>, Vec<PendingRpc<R>>))
    requires
        old(state).wf(),
    ensures
        final(state).wf(),
        final(state).title_view() == old(state).title_view(),
        final(state).has_player_view() == old(state).has_player_view(),
        final(state).freezes_view() == old(state).freezes_view(),
        work.0@.len() == old(state).freezes_view().len(),
        forall|i: int| 0 <= i < work.0@.len() ==>
            (#[trigger] work.0@[i])@ == freeze_set_request(old(state).freezes_view()[i].0, old(state).freezes_view()[i].1),
        ({
            let n = if old(state).queue_view().len() < MAX_RPC_PER_FRAME {
                old(state).queue_view().len() as int
            } else {
                MAX_RPC_PER_FRAME as int
            };
            &&& work.1@ == old(state).queue_view().take(n)
            &&& final(state).queue_view() == old(state).queue_view().skip(n)
        }),
{
    let reqs = state.freeze_requests();
    let jobs = state.take_frame_jobs();
    (reqs, jobs)
}

/// `{"ok":false,"error":MSG}`.
pub open spec fn error_reply(msg: Seq<char>) -> Seq<char> {
    "{\"ok\":false,\"error\":"@ + json_quoted(msg) + "}"@
}

/// The answer to an RPC whose handling panicked with message `msg`.
pub fn rpc_panic_reply(msg: &str) -> (r: String)
    ensures
        r@ == error_reply("rpc panicked: "@ + msg@),
{
    let mut m = String::from_str("rpc panicked: ");
    m.append(msg);
    let mut r = String::from_str("{\"ok\":false,\"error\":");
    r.append(json_escape_raw(m.as_str()).as_str());
    r.append("}");
    r
}

} // verus!
