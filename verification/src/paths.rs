//! The path grammar of the bridge. A target is `so:NAME` or `so:NAME|PROPS`
//! for a SharedObject's data, or `DISPLAY.PROPS` where `DISPLAY` is
//! `stage`, `root`, or a child of root, followed by `/CHILD` steps, and
//! `PROPS` is a `.`-separated property walk.
use vstd::prelude::*;
use crate::text::{
    chars_of, slice_vec, string_of, trim, trim_bounds, str_eq,
};
use crate::http::starts_with;

verus! {

/// The index of the first `c` in `s`, or its length.
pub open spec fn char_index(s: Seq<char>, c: char) -> int
    decreases s.len(),
{
    if s.len() == 0 {
        0
    } else if s[0] == c {
        0
    } else {
        1 + char_index(s.drop_first(), c)
    }
}

/// The pieces of `s` between the separators `c`, empty pieces left out
/// (std's `split(c).filter(|p| !p.is_empty())`).
pub open spec fn split_nonempty(s: Seq<char>, c: char) -> Seq<Seq<char>>
    decreases s.len(),
{
    if s.len() == 0 {
        seq![]
    } else {
        let i = char_index(s, c);
        let head = if i > 0 { seq![s.take(i)] } else { seq![] };
        if 0 <= i < s.len() {
            head + split_nonempty(s.skip(i + 1), c)
        } else {
            seq![s]
        }
    }
}

/// The pieces joined with `.` between them.
pub open spec fn join_dots(parts: Seq<Seq<char>>) -> Seq<char>
    decreases parts.len(),
{
    if parts.len() == 0 {
        seq![]
    } else if parts.len() == 1 {
        parts[0]
    } else {
        join_dots(parts.drop_last()) + seq!['.'] + parts.last()
    }
}

/// `char_index` is the first index holding `c`.
pub(crate) proof fn lemma_char_index(s: Seq<char>, c: char, e: int)
    requires
        0 <= e <= s.len(),
        e < s.len() ==> s[e] == c,
        forall|k: int| 0 <= k < e ==> s[k] != c,
    ensures
        char_index(s, c) == e,
    decreases e,
{
    if e > 0 {
        lemma_char_index(s.drop_first(), c, e - 1);
    }
}

/// Index of the first `c` in `s[from..]`, or `s.len()`.
fn find_char_from(s: &[char], from: usize, c: char) -> (r: usize)
    requires
        from <= s.len(),
    ensures
        from <= r <= s.len(),
        r - from == char_index(s@.skip(from as int), c),
{
    let mut k = from;
    while k < s.len() && s[k] != c
        invariant
            from <= k <= s.len(),
            forall|j: int| from <= j < k ==> s@[j] != c,
        decreases s.len() - k,
    {
        k = k + 1;
    }
    proof {
        let rest = s@.skip(from as int);
        assert forall|j: int| 0 <= j < k - from implies rest[j] != c by {
            assert(rest[j] == s@[from + j]);
        }
        if k < s.len() {
            assert(rest[k - from] == s@[k as int]);
        }
        lemma_char_index(rest, c, k - from);
    }
    k
}

/// The non-empty pieces of `s[from..]` between separators `c`.
fn split_from(s: &[char], from: usize, c: char) -> (r: Vec<String>)
    requires
        from <= s.len(),
    ensures
        r@.len() == split_nonempty(s@.skip(from as int), c).len(),
        forall|i: int| 0 <= i < r@.len() ==> (#[trigger] r@[i])@ == split_nonempty(s@.skip(from as int), c)[i],
    decreases s.len() - from,
{
    let ghost rest = s@.skip(from as int);
    if from == s.len() {
        assert(rest.len() == 0);
        return Vec::new();
    }
    let e = find_char_from(s, from, c);
    let mut r: Vec<String> = Vec::new();
    if e > from {
        let piece = slice_vec(s, from, e);
        assert(piece@ =~= rest.take(e - from));
        r.push(string_of(&piece));
    }
    if e < s.len() {
        assert(rest.skip(e - from + 1) =~= s@.skip(e + 1));
        let tail = split_from(s, e + 1, c);
        let ghost head = r@;
        let ghost hd = if e - from > 0 { seq![rest.take(e - from)] } else { Seq::<Seq<char>>::empty() };
        assert(head.len() == hd.len());
        assert(forall|k: int| 0 <= k < head.len() ==> head[k]@ == hd[k]);
        let mut i: usize = 0;
        while i < tail.len()
            invariant
                i <= tail@.len(),
                head.len() <= 1,
                r@.len() == head.len() + i,
                forall|k: int| 0 <= k < head.len() ==> r@[k] == head[k],
                forall|k: int| 0 <= k < i ==> r@[head.len() + k] == tail@[k],
            decreases tail@.len() - i,
        {
            r.push(tail[i].clone());
            i = i + 1;
        }
        proof {
            let want = split_nonempty(rest, c);
            let ts = split_nonempty(s@.skip(e + 1), c);
            assert(want == hd + ts);
            assert forall|k: int| 0 <= k < r@.len() implies (#[trigger] r@[k])@ == want[k] by {
                if k < head.len() {
                    assert(r@[k] == head[k]);
                } else {
                    assert(r@[k] == tail@[k - head.len()]);
                    assert(want[k] == ts[k - hd.len()]);
                }
            }
        }
    } else {
        proof {
            assert(rest.take(e - from) =~= rest);
        }
    }
    r
}

/// The non-empty pieces of `s` between separators `c`.
pub fn split_nonempty_exec(s: &str, c: char) -> (r: Vec<String>)
    ensures
        r@.len() == split_nonempty(s@, c).len(),
        forall|i: int| 0 <= i < r@.len() ==> (#[trigger] r@[i])@ == split_nonempty(s@, c)[i],
{
    let v = chars_of(s);
    assert(v@.skip(0) =~= v@);
    split_from(&v, 0, c)
}

/// Joins pieces with `.` between them.
pub fn join_dots_exec(parts: &[String], n: usize) -> (r: String)
    requires
        n <= parts@.len(),
    ensures
        r@ == join_dots(Seq::new(n as nat, |i: int| parts@[i]@)),
    decreases n,
{
    let ghost want = Seq::new(n as nat, |i: int| parts@[i]@);
    if n == 0 {
        return String::new();
    }
    if n == 1 {
        return parts[0].clone();
    }
    let mut r = join_dots_exec(parts, n - 1);
    r.append(".");
    r.append(parts[n - 1].as_str());
    proof {
        reveal_strlit(".");
        assert(want.drop_last() =~= Seq::new((n - 1) as nat, |i: int| parts@[i]@));
    }
    r
}

/// A property walk cut into the object to walk to and the last property.
#[derive(Clone, Debug)]
pub enum PropSplit {
    /// The walk is empty: there is no property to write.
    NoPath,
    /// The walk has no property names (only dots).
    NoProperty,
    /// Walk to `parent` (names joined by `.`), then write `last`.
    Split { parent: String, last: String },
}

/// Cuts a property walk before its last name, as the writing ops do.
pub fn split_last_prop(prop_path: &str) -> (r: PropSplit)
    ensures
        prop_path@.len() == 0 ==> r is NoPath,
        prop_path@.len() > 0 && split_nonempty(prop_path@, '.').len() == 0 ==> r is NoProperty,
        prop_path@.len() > 0 && split_nonempty(prop_path@, '.').len() > 0 ==> ({
            let parts = split_nonempty(prop_path@, '.');
            r matches PropSplit::Split { parent, last }
                && last@ == parts.last()
                && parent@ == join_dots(parts.drop_last())
        }),
{
    let v = chars_of(prop_path);
    if v.len() == 0 {
        return PropSplit::NoPath;
    }
    let parts = split_nonempty_exec(prop_path, '.');
    if parts.len() == 0 {
        return PropSplit::NoProperty;
    }
    let n = parts.len();
    let last = parts[n - 1].clone();
    let parent = join_dots_exec(&parts, n - 1);
    proof {
        let want = split_nonempty(prop_path@, '.');
        assert(Seq::new((n - 1) as nat, |i: int| parts@[i]@) =~= want.drop_last());
    }
    PropSplit::Split { parent, last }
}

/// Where a path points: a SharedObject's data, or a display object, each
/// with the property walk that follows.
#[derive(Clone, Debug)]
pub enum Target {
    SharedObject { name: String, props: String },
    Display { base: String, props: String },
}

/// How a path reads: `None` for a path that is empty once trimmed.
/// `so:NAME|PROPS` splits at the first `|` (SharedObject names hold `.` and
/// `/`, so never at a dot); a display path splits at its first `.`.
pub open spec fn target_of(path: Seq<char>) -> Option<(bool, Seq<char>, Seq<char>)> {
    let p = trim(path);
    if p.len() == 0 {
        None
    } else if starts_with(p, "so:"@) {
        let rest = p.skip(3);
        let i = char_index(rest, '|');
        if i < rest.len() {
            Some((true, trim(rest.take(i)), rest.skip(i + 1)))
        } else {
            Some((true, trim(rest), seq![]))
        }
    } else {
        let d = char_index(p, '.');
        if d < p.len() {
            Some((false, p.take(d), p.skip(d + 1)))
        } else {
            Some((false, p, seq![]))
        }
    }
}

/// The view of a target: SharedObject or not, its name or display path,
/// and its property walk.
pub open spec fn target_view(t: Target) -> (bool, Seq<char>, Seq<char>) {
    match t {
        Target::SharedObject { name, props } => (true, name@, props@),
        Target::Display { base, props } => (false, base@, props@),
    }
}

/// Reads a target path; a path that is empty once trimmed is refused with
/// `path required`.
pub fn parse_target(path: &str) -> (r: Result<Target, String>)
    ensures
        match target_of(path@) {
            None => r matches Err(m) && m@ == "path required"@,
            Some(t) => r matches Ok(x) && target_view(x) == t,
        },
{
    let all = chars_of(path);
    let (a, b) = trim_bounds(&all, 0, all.len());
    assert(all@.subrange(0, all@.len() as int) =~= all@);
    let p = slice_vec(&all, a, b);
    if p.len() == 0 {
        return Err(String::from_str("path required"));
    }
    if crate::http::has_prefix(&p, "so:") {
        proof {
            reveal_strlit("so:");
        }
        let i = find_char_from(&p, 3, '|');
        assert(p@.skip(3) =~= p@.subrange(3, p@.len() as int));
        if i < p.len() {
            let (x, y) = trim_bounds(&p, 3, i);
            let name = string_of(&slice_vec(&p, x, y));
            let props = string_of(&slice_vec(&p, i + 1, p.len()));
            proof {
                assert(p@.skip(3).take(i - 3) =~= p@.subrange(3, i as int));
                assert(p@.skip(3).skip(i - 3 + 1) =~= p@.subrange(i + 1, p@.len() as int));
            }
            Ok(Target::SharedObject { name, props })
        } else {
            let (x, y) = trim_bounds(&p, 3, p.len());
            let name = string_of(&slice_vec(&p, x, y));
            Ok(Target::SharedObject { name, props: String::new() })
        }
    } else {
        let d = find_char_from(&p, 0, '.');
        assert(p@.skip(0) =~= p@);
        if d < p.len() {
            let base = string_of(&slice_vec(&p, 0, d));
            let props = string_of(&slice_vec(&p, d + 1, p.len()));
            proof {
                assert(p@.take(d as int) =~= p@.subrange(0, d as int));
                assert(p@.skip(d + 1) =~= p@.subrange(d + 1, p@.len() as int));
            }
            Ok(Target::Display { base, props })
        } else {
            Ok(Target::Display { base: string_of(&p), props: String::new() })
        }
    }
}

/// Where a display walk starts.
#[derive(Clone, Debug)]
pub enum DisplayStart {
    /// `stage`.
    Stage,
    /// `root`, the root movie clip.
    Root,
    /// Any other first name: that child of the root clip.
    RootChild(String),
}

/// A display path read into its start and the child names to walk through.
pub struct DisplayPlan {
    pub start: DisplayStart,
    pub steps: Vec<String>,
}

/// Reads a display path: its `/`-separated names (empty ones left out);
/// a path without names is refused with `empty display path`.
pub fn plan_display_path(path: &str) -> (r: Result<DisplayPlan, String>)
    ensures
        ({
            let parts = split_nonempty(path@, '/');
            if parts.len() == 0 {
                r matches Err(m) && m@ == "empty display path"@
            } else {
                r matches Ok(plan) && {
                    &&& (if parts[0] == "stage"@ {
                        plan.start is Stage
                    } else if parts[0] == "root"@ {
                        plan.start is Root
                    } else {
                        plan.start matches DisplayStart::RootChild(n) && n@ == parts[0]
                    })
                    &&& plan.steps@.len() == parts.len() - 1
                    &&& forall|i: int| 0 <= i < plan.steps@.len() ==> (#[trigger] plan.steps@[i])@ == parts[i + 1]
                }
            }
        }),
{
    let parts = split_nonempty_exec(path, '/');
    if parts.len() == 0 {
        return Err(String::from_str("empty display path"));
    }
    let first = parts[0].as_str();
    let start = if str_eq(first, "stage") {
        DisplayStart::Stage
    } else if str_eq(first, "root") {
        DisplayStart::Root
    } else {
        DisplayStart::RootChild(parts[0].clone())
    };
    let mut steps: Vec<String> = Vec::new();
    let mut i: usize = 1;
    while i < parts.len()
        invariant
            1 <= i <= parts@.len(),
            steps@.len() == i - 1,
            forall|k: int| 0 <= k < steps@.len() ==> (#[trigger] steps@[k])@ == parts@[k + 1]@,
        decreases parts@.len() - i,
    {
        steps.push(parts[i].clone());
        i = i + 1;
    }
    Ok(DisplayPlan { start, steps })
}

/// The pieces joined with `sep` between them.
pub open spec fn join_with(parts: Seq<Seq<char>>, sep: char) -> Seq<char>
    decreases parts.len(),
{
    if parts.len() == 0 {
        seq![]
    } else if parts.len() == 1 {
        parts[0]
    } else {
        parts[0] + seq![sep] + join_with(parts.drop_first(), sep)
    }
}

/// Every piece is non-empty and holds no `c`.
pub open spec fn clean_pieces(parts: Seq<Seq<char>>, c: char) -> bool {
    forall|i: int| 0 <= i < parts.len() ==> (#[trigger] parts[i]).len() > 0 && !parts[i].contains(c)
}

proof fn lemma_char_index_first(s: Seq<char>, c: char)
    ensures
        0 <= char_index(s, c) <= s.len(),
        char_index(s, c) < s.len() ==> s[char_index(s, c)] == c,
        forall|k: int| 0 <= k < char_index(s, c) ==> s[k] != c,
    decreases s.len(),
{
    if s.len() > 0 && s[0] != c {
        lemma_char_index_first(s.drop_first(), c);
        assert forall|k: int| 0 <= k < char_index(s, c) implies s[k] != c by {
            if k > 0 {
                assert(s[k] == s.drop_first()[k - 1]);
            }
        }
    }
}

proof fn lemma_split_pieces_clean(s: Seq<char>, c: char)
    ensures
        clean_pieces(split_nonempty(s, c), c),
    decreases s.len(),
{
    if s.len() > 0 {
        let i = char_index(s, c);
        lemma_char_index_first(s, c);
        if 0 <= i < s.len() {
            lemma_split_pieces_clean(s.skip(i + 1), c);
            let head = if i > 0 { seq![s.take(i)] } else { Seq::<Seq<char>>::empty() };
            if i > 0 {
                assert forall|k: int| 0 <= k < s.take(i).len() implies s.take(i)[k] != c by {}
            }
            let tail = split_nonempty(s.skip(i + 1), c);
            assert forall|k: int| 0 <= k < (head + tail).len() implies (#[trigger] (head + tail)[k]).len() > 0 && !(
            head + tail)[k].contains(c) by {
                if k >= head.len() {
                    assert((head + tail)[k] == tail[k - head.len()]);
                }
            }
        } else {
            assert forall|k: int| 0 <= k < s.len() implies s[k] != c by {}
        }
    }
}

proof fn lemma_split_join(parts: Seq<Seq<char>>, c: char)
    requires
        clean_pieces(parts, c),
    ensures
        split_nonempty(join_with(parts, c), c) == parts,
    decreases parts.len(),
{
    if parts.len() == 1 {
        let p0 = parts[0];
        assert(p0.len() > 0 && !p0.contains(c));
        lemma_char_index(p0, c, p0.len() as int);
        assert(split_nonempty(p0, c) =~= seq![p0]);
    } else if parts.len() > 1 {
        let p0 = parts[0];
        let rest = parts.drop_first();
        assert(p0.len() > 0 && !p0.contains(c));
        assert forall|i: int| 0 <= i < rest.len() implies (#[trigger] rest[i]).len() > 0 && !rest[i].contains(c) by {
            assert(rest[i] == parts[i + 1]);
        }
        lemma_split_join(rest, c);
        let s = join_with(parts, c);
        assert(s == p0 + seq![c] + join_with(rest, c));
        assert forall|k: int| 0 <= k < p0.len() implies s[k] != c by {
            assert(s[k] == p0[k]);
        }
        lemma_char_index(s, c, p0.len() as int);
        assert(s.take(p0.len() as int) =~= p0);
        assert(s.skip(p0.len() as int + 1) =~= join_with(rest, c));
        assert(split_nonempty(s, c) =~= seq![p0] + rest);
    }
}

proof fn lemma_join_with_push(p: Seq<Seq<char>>, x: Seq<char>, c: char)
    requires
        p.len() > 0,
    ensures
        join_with(p.push(x), c) == join_with(p, c) + seq![c] + x,
    decreases p.len(),
{
    let q = p.push(x);
    assert(q[0] == p[0]);
    if p.len() == 1 {
        assert(q.drop_first() =~= seq![x]);
        assert(join_with(seq![x], c) == x);
        assert(join_with(q, c) =~= join_with(p, c) + seq![c] + x);
    } else {
        assert(q.drop_first() =~= p.drop_first().push(x));
        lemma_join_with_push(p.drop_first(), x, c);
        assert(join_with(q, c) =~= join_with(p, c) + seq![c] + x);
    }
}

proof fn lemma_join_dots_is_join_with(p: Seq<Seq<char>>)
    ensures
        join_dots(p) == join_with(p, '.'),
    decreases p.len(),
{
    if p.len() >= 2 {
        lemma_join_dots_is_join_with(p.drop_last());
        lemma_join_with_push(p.drop_last(), p.last(), '.');
        assert(p.drop_last().push(p.last()) =~= p);
    }
}

/// Joining names with `.` loses none of them: for names that are non-empty
/// and hold no `.`, splitting the joined walk on `.` gives them back, in
/// order. In particular the parent walk that the writing ops use (every
/// name of a property walk but the last) splits back into exactly those
/// names.
pub proof fn lemma_join_dots_splits_back(names: Seq<Seq<char>>, prop_path: Seq<char>)
    ensures
        clean_pieces(names, '.') ==> split_nonempty(join_dots(names), '.') == names,
        split_nonempty(prop_path, '.').len() > 0 ==> split_nonempty(
            join_dots(split_nonempty(prop_path, '.').drop_last()),
            '.',
        ) == split_nonempty(prop_path, '.').drop_last(),
{
    lemma_join_dots_is_join_with(names);
    if clean_pieces(names, '.') {
        lemma_split_join(names, '.');
    }
    let parts = split_nonempty(prop_path, '.');
    lemma_split_pieces_clean(prop_path, '.');
    if parts.len() > 0 {
        let d = parts.drop_last();
        assert forall|i: int| 0 <= i < d.len() implies (#[trigger] d[i]).len() > 0 && !d[i].contains('.') by {
            assert(d[i] == parts[i]);
        }
        lemma_join_dots_is_join_with(d);
        lemma_split_join(d, '.');
    }
}

/// Display paths plan by their non-empty `/` segments alone: joining the
/// segments of a path with single `/` gives a path with the same segments,
/// and putting `root/` in front of it adds exactly the segment `root`.
pub proof fn lemma_display_path_segments(p: Seq<char>)
    ensures
        split_nonempty(join_with(split_nonempty(p, '/'), '/'), '/') == split_nonempty(p, '/'),
        split_nonempty("root/"@ + join_with(split_nonempty(p, '/'), '/'), '/') == seq!["root"@] + split_nonempty(
            p,
            '/',
        ),
{
    let parts = split_nonempty(p, '/');
    lemma_split_pieces_clean(p, '/');
    lemma_split_join(parts, '/');
    let q = join_with(parts, '/');
    let s = "root/"@ + q;
    reveal_strlit("root/");
    reveal_strlit("root");
    assert(s[4] == '/');
    assert forall|k: int| 0 <= k < 4 implies s[k] != '/' by {}
    lemma_char_index(s, '/', 4);
    assert(s.take(4) =~= "root"@);
    assert(s.skip(5) =~= q);
}

/// The ops that write one property at the end of a walk.
#[derive(PartialEq, Eq, Structural, Clone, Copy, Debug)]
pub enum WriteOp {
    SetProp,
    BindSo,
    SetRef,
}

/// What a writing op answers when its target has no property walk.
pub open spec fn no_property_text(op: WriteOp) -> Seq<char> {
    match op {
        WriteOp::SetProp => "set requires a property path (e.g. root.x or so:name|allmoney)"@,
        WriteOp::BindSo => "bind_so path needs a property (e.g. root/thanksTanks.sharedOb)"@,
        WriteOp::SetRef => "target path needs a property"@,
    }
}

/// The object to walk to and the property to write for a writing op's
/// property walk: an empty walk is refused with the op's message
/// (`no_property_text`), a walk of dots alone with `property required`;
/// otherwise the names but the last, joined by `.`, and the last name.
pub fn write_target(prop_path: &str, op: WriteOp) -> (r: Result<(String, String), String>)
    ensures
        prop_path@.len() == 0 ==> (r matches Err(m) && m@ == no_property_text(op)),
        prop_path@.len() > 0 && split_nonempty(prop_path@, '.').len() == 0 ==> (r matches Err(m) && m@
            == "property required"@),
        prop_path@.len() > 0 && split_nonempty(prop_path@, '.').len() > 0 ==> ({
            let parts = split_nonempty(prop_path@, '.');
            r matches Ok((parent, last)) && last@ == parts.last() && parent@ == join_dots(parts.drop_last())
        }),
{
    match split_last_prop(prop_path) {
        PropSplit::NoPath => Err(match op {
            WriteOp::SetProp => String::from_str("set requires a property path (e.g. root.x or so:name|allmoney)"),
            WriteOp::BindSo => String::from_str("bind_so path needs a property (e.g. root/thanksTanks.sharedOb)"),
            WriteOp::SetRef => String::from_str("target path needs a property"),
        }),
        PropSplit::NoProperty => Err(String::from_str("property required")),
        PropSplit::Split { parent, last } => Ok((parent, last)),
    }
}

/// The refusal when a display path names an object without an AVM2 object:
/// `no AVM2 object at display path '`, the path, `'`.
pub fn no_object_at(base: &str) -> (m: String)
    ensures
        m@ == "no AVM2 object at display path '"@ + base@ + "'"@,
{
    let mut m = String::from_str("no AVM2 object at display path '");
    m.append(base);
    m.append("'");
    m
}

/// Why a display walk stopped: no root clip, a root that holds no
/// children, no child of that name under the root, a node on the way that
/// holds no children (its name), or no child `part` under the node named
/// `parent`.
pub enum DisplayMiss {
    NoRoot,
    RootNotContainer,
    NoChildUnderRoot(String),
    NotContainer(String),
    NoChild { part: String, parent: String },
}

/// The message a stopped display walk is reported with.
pub open spec fn display_miss_text(m: DisplayMiss) -> Seq<char> {
    match m {
        DisplayMiss::NoRoot => "no root clip"@,
        DisplayMiss::RootNotContainer => "root is not a container"@,
        DisplayMiss::NoChildUnderRoot(n) => "no child '"@ + n@ + "' under root"@,
        DisplayMiss::NotContainer(n) => "'"@ + n@ + "' is not a container"@,
        DisplayMiss::NoChild { part, parent } => "no child '"@ + part@ + "' under "@ + parent@,
    }
}

impl DisplayMiss {
    /// The message this stop is reported with (`display_miss_text`).
    pub fn message(&self) -> (r: String)
        ensures
            r@ == display_miss_text(*self),
    {
        match self {
            DisplayMiss::NoRoot => String::from_str("no root clip"),
            DisplayMiss::RootNotContainer => String::from_str("root is not a container"),
            DisplayMiss::NoChildUnderRoot(n) => {
                let mut m = String::from_str("no child '");
                m.append(n.as_str());
                m.append("' under root");
                m
            },
            DisplayMiss::NotContainer(n) => {
                let mut m = String::from_str("'");
                m.append(n.as_str());
                m.append("' is not a container");
                m
            },
            DisplayMiss::NoChild { part, parent } => {
                let mut m = String::from_str("no child '");
                m.append(part.as_str());
                m.append("' under ");
                m.append(parent.as_str());
                m
            },
        }
    }
}

} // verus!
