//! The directory of all pages, as a tree of path segments kept in an arena.
use vstd::prelude::*;
use crate::common::str_eq;
use crate::entry::{views, Entry};
use crate::text::{
    chars_less, chars_lt, chars_of, decimal_seq, lemma_chars_lt_irreflexive,
    lemma_chars_lt_transitive, push_char, push_decimal, push_repeat, push_str, repeat_seq, replace,
    replace_seq, string_of,
};

verus! {

// ---------------------------------------------------------------------------
// Paths
// ---------------------------------------------------------------------------

/// What `std::path::Path::components` gives for a path, each component as
/// text, with the path syntax of the target the library is built for.
pub uninterp spec fn path_components_of(path: Seq<char>) -> Seq<Seq<char>>;

/// Calls `std::path::Path::components` and takes each component as text; the
/// contract names the result.
#[verifier::external_body]
fn path_components(path: &str) -> (res: Vec<String>)
    ensures
        Seq::new(res@.len(), |i: int| res@[i]@) == path_components_of(path@),
{
    std::path::Path::new(path).components().map(|c| c.as_os_str().to_string_lossy().into_owned()).collect()
}

/// The segments of a page path that name directory nodes: each component
/// without `.md`, the component `404` left out.
pub open spec fn segments_of(components: Seq<Seq<char>>) -> Seq<Seq<char>>
    decreases components.len(),
{
    if components.len() == 0 {
        Seq::empty()
    } else {
        let rest = segments_of(components.drop_last());
        let seg = replace_seq(components.last(), ".md"@, Seq::empty());
        if seg == "404"@ {
            rest
        } else {
            rest.push(seg)
        }
    }
}

/// Whether path `a` comes before path `b`, segment by segment.
pub open spec fn path_lt(a: Seq<Seq<char>>, b: Seq<Seq<char>>) -> bool
    decreases a.len(),
{
    if a.len() == 0 {
        b.len() > 0
    } else if b.len() == 0 {
        false
    } else if a[0] != b[0] {
        chars_lt(a[0], b[0])
    } else {
        path_lt(a.drop_first(), b.drop_first())
    }
}

/// The position at which `x` goes into the sorted `s`: before the first
/// element that it comes before, else at the end.
pub open spec fn insert_pos(s: Seq<Seq<Seq<char>>>, x: Seq<Seq<char>>, from: int) -> int
    decreases s.len() - from,
{
    if from >= s.len() || from < 0 {
        s.len() as int
    } else if path_lt(x, s[from]) {
        from
    } else {
        insert_pos(s, x, from + 1)
    }
}

/// The paths in ascending order, as a stable sort leaves them.
pub open spec fn sort_paths(ps: Seq<Seq<Seq<char>>>) -> Seq<Seq<Seq<char>>>
    decreases ps.len(),
{
    if ps.len() == 0 {
        Seq::empty()
    } else {
        let s = sort_paths(ps.drop_last());
        let k = insert_pos(s, ps.last(), 0);
        s.take(k).push(ps.last()) + s.skip(k)
    }
}

/// The segments of some paths, as plain values.
pub open spec fn paths_view(ps: Seq<Vec<Vec<char>>>) -> Seq<Seq<Seq<char>>> {
    Seq::new(ps.len(), |i: int| views(ps[i]@))
}

fn path_less(a: &Vec<Vec<char>>, b: &Vec<Vec<char>>) -> (res: bool)
    ensures
        res == path_lt(views(a@), views(b@)),
{
    let ghost av = views(a@);
    let ghost bv = views(b@);
    let mut i: usize = 0;
    assert(av.skip(0) =~= av);
    assert(bv.skip(0) =~= bv);
    while i < a.len() && i < b.len() && crate::common::chars_eq(&a[i], &b[i])
        invariant
            i <= a@.len(),
            i <= b@.len(),
            av == views(a@),
            bv == views(b@),
            path_lt(av, bv) == path_lt(av.skip(i as int), bv.skip(i as int)),
        decreases a@.len() - i,
    {
        assert(av.skip(i as int).drop_first() =~= av.skip(i + 1));
        assert(bv.skip(i as int).drop_first() =~= bv.skip(i + 1));
        i += 1;
    }
    proof {
        if i < a@.len() && i < b@.len() {
            assert(av.skip(i as int)[0] == av[i as int]);
            assert(bv.skip(i as int)[0] == bv[i as int]);
        }
    }
    if i == a.len() {
        i < b.len()
    } else if i == b.len() {
        false
    } else {
        chars_less(&a[i], &b[i])
    }
}


/// Inserts `x` into the sorted `sorted` after every path it does not come before.
fn insert_path(sorted: &mut Vec<Vec<Vec<char>>>, x: Vec<Vec<char>>)
    ensures
        paths_view(final(sorted)@) == ({
            let s = paths_view(old(sorted)@);
            let k = insert_pos(s, views(x@), 0);
            s.take(k).push(views(x@)) + s.skip(k)
        }),
{
    let ghost s = paths_view(sorted@);
    let mut j: usize = 0;
    while j < sorted.len() && !path_less(&x, &sorted[j])
        invariant
            j <= sorted@.len(),
            s == paths_view(sorted@),
            sorted@ == old(sorted)@,
            insert_pos(s, views(x@), 0) == insert_pos(s, views(x@), j as int),
        decreases sorted@.len() - j,
    {
        j += 1;
    }
    let ghost xv = views(x@);
    sorted.insert(j, x);
    assert(paths_view(sorted@) =~= s.take(j as int).push(xv) + s.skip(j as int));
}

/// The paths in ascending order.
fn sort_path_list(ps: Vec<Vec<Vec<char>>>) -> (res: Vec<Vec<Vec<char>>>)
    ensures
        paths_view(res@) == sort_paths(paths_view(ps@)),
{
    let ghost orig = paths_view(ps@);
    let n: usize = ps.len();
    let mut rest = ps;
    let mut sorted: Vec<Vec<Vec<char>>> = Vec::new();
    let mut i: usize = 0;
    assert(paths_view(sorted@) =~= sort_paths(orig.take(0)));
    assert(paths_view(rest@) =~= orig.skip(0));
    while rest.len() > 0
        invariant
            i <= orig.len(),
            orig.len() == n,
            paths_view(rest@) == orig.skip(i as int),
            paths_view(sorted@) == sort_paths(orig.take(i as int)),
        decreases rest@.len(),
    {
        let ghost before = rest@;
        assert(paths_view(before).len() == before.len());
        assert(i < orig.len());
        let x = rest.remove(0);
        assert(x == before[0]);
        assert(views(x@) == orig[i as int]) by {
            assert(paths_view(before)[0] == views(before[0]@));
            assert(paths_view(before)[0] == orig.skip(i as int)[0]);
        }
        proof {
            assert(orig.take(i + 1).drop_last() =~= orig.take(i as int));
        }
        insert_path(&mut sorted, x);
        assert forall|k: int| 0 <= k < rest@.len() implies paths_view(rest@)[k] == orig.skip(i + 1)[k] by {
            assert(rest@[k] == before[k + 1]);
            assert(paths_view(before)[k + 1] == orig.skip(i as int)[k + 1]);
        }
        assert(paths_view(rest@) =~= orig.skip(i + 1));
        i += 1;
    }
    assert(orig.take(i as int) =~= orig);
    sorted
}


// ---------------------------------------------------------------------------
// The arena
// ---------------------------------------------------------------------------

/// A node of the directory: a path segment and the nodes below it.
#[derive(Debug, Clone)]
pub struct DirectoryItem {
    idx: usize,
    val: String,
    children: Vec<usize>,
}

impl DirectoryItem {
    fn new(idx: usize, val: String) -> (res: Self)
        ensures
            res.idx == idx,
            res.val@ == val@,
            res.children@ == Seq::<usize>::empty(),
    {
        DirectoryItem { idx, val, children: Vec::new() }
    }
}

/// The directory of all pages: nodes kept in an arena, each pointing to its
/// children by their position. The node at position 0 is the root.
#[derive(Debug, Clone)]
pub struct DirectoryTree {
    arena: Vec<DirectoryItem>,
}

/// The name and children of a node, as plain values.
pub closed spec fn item_view(it: DirectoryItem) -> (Seq<char>, Seq<usize>) {
    (it.val@, it.children@)
}

impl View for DirectoryTree {
    type V = Seq<(Seq<char>, Seq<usize>)>;

    closed spec fn view(&self) -> Seq<(Seq<char>, Seq<usize>)> {
        Seq::new(self.arena@.len(), |i: int| item_view(self.arena@[i]))
    }
}

/// An arena in which there is a root and every child is a node of the arena.
pub open spec fn arena_wf(a: Seq<(Seq<char>, Seq<usize>)>) -> bool {
    &&& a.len() >= 1
    &&& forall|i: int, k: int| 0 <= i < a.len() && 0 <= k < a[i].1.len() ==> #[trigger] a[i].1[k] < a.len()
}

/// The first node named `val`, if there is one.
pub open spec fn find_node(a: Seq<(Seq<char>, Seq<usize>)>, val: Seq<char>, from: int) -> Option<int>
    decreases a.len() - from,
{
    if from < 0 || from >= a.len() {
        None
    } else if a[from].0 == val {
        Some(from)
    } else {
        find_node(a, val, from + 1)
    }
}

/// The arena with a node named `val` (the first one there is, else a new
/// one at the end), and that node's position.
pub open spec fn with_node(a: Seq<(Seq<char>, Seq<usize>)>, val: Seq<char>) -> (Seq<(Seq<char>, Seq<usize>)>, int) {
    match find_node(a, val, 0) {
        Some(i) => (a, i),
        None => (a.push((val, Seq::empty())), a.len() as int),
    }
}

/// The arena with `node` among the children of `base`, added at the end of
/// them where it is not there yet.
pub open spec fn link_child(a: Seq<(Seq<char>, Seq<usize>)>, base: int, node: usize) -> Seq<(Seq<char>, Seq<usize>)> {
    if a[base].1.contains(node) {
        a
    } else {
        a.update(base, (a[base].0, a[base].1.push(node)))
    }
}

/// The arena after a path of segments is hung below `base`: each segment
/// becomes (or finds) a node, a child of the node of the segment before it.
pub open spec fn add_segments(a: Seq<(Seq<char>, Seq<usize>)>, base: int, segs: Seq<Seq<char>>) -> Seq<(Seq<char>, Seq<usize>)>
    decreases segs.len(),
{
    if segs.len() == 0 {
        a
    } else {
        let (a1, n) = with_node(a, segs[0]);
        add_segments(link_child(a1, base, n as usize), n, segs.drop_first())
    }
}

/// The arena after the paths are hung below the root, one after the other.
pub open spec fn add_paths(a: Seq<(Seq<char>, Seq<usize>)>, paths: Seq<Seq<Seq<char>>>) -> Seq<(Seq<char>, Seq<usize>)>
    decreases paths.len(),
{
    if paths.len() == 0 {
        a
    } else {
        add_segments(add_paths(a, paths.drop_last()), 0, paths.last())
    }
}

/// The directory of pages at the given paths, below a root of the given name:
/// the paths are sorted, then hung below the root one after the other.
pub open spec fn tree_of(paths: Seq<Seq<Seq<char>>>, root: Seq<char>) -> Seq<(Seq<char>, Seq<usize>)> {
    add_paths(seq![(root, Seq::<usize>::empty())], sort_paths(paths))
}

impl DirectoryTree {
    /// The arena is well formed and each node knows its own position.
    pub closed spec fn wf(&self) -> bool {
        &&& arena_wf(self@)
        &&& forall|i: int| 0 <= i < self.arena@.len() ==> #[trigger] self.arena@[i].idx == i
    }

    /// The position that node `i` records for itself.
    pub closed spec fn recorded_index(&self, i: int) -> int {
        self.arena@[i].idx as int
    }

    /// A well formed directory has a root, its children are nodes of it, and
    /// each node records its own position.
    pub proof fn lemma_wf(&self)
        requires
            self.wf(),
        ensures
            arena_wf(self@),
            forall|i: int| 0 <= i < self@.len() ==> #[trigger] self.recorded_index(i) == i,
    {
    }

    /// The number of nodes.
    pub fn len(&self) -> (res: usize)
        ensures
            res == self@.len(),
    {
        self.arena.len()
    }

    /// The position of the first node named `val`, after adding one at the
    /// end where there is none.
    fn node(&mut self, val: String) -> (res: usize)
        requires
            forall|i: int| 0 <= i < old(self).arena@.len() ==> #[trigger] old(self).arena@[i].idx == i,
        ensures
            (final(self)@, res as int) == with_node(old(self)@, val@),
            forall|i: int| 0 <= i < final(self).arena@.len() ==> #[trigger] final(self).arena@[i].idx == i,
    {
        let ghost a = self@;
        let mut i: usize = 0;
        while i < self.arena.len()
            invariant
                i <= self.arena@.len(),
                a == self@,
                forall|k: int| 0 <= k < self.arena@.len() ==> #[trigger] self.arena@[k].idx == k,
                find_node(a, val@, 0) == find_node(a, val@, i as int),
            decreases self.arena@.len() - i,
        {
            assert(a[i as int] == item_view(self.arena@[i as int]));
            if str_eq(self.arena[i].val.as_str(), val.as_str()) {
                return self.arena[i].idx;
            }
            i += 1;
        }
        let idx: usize = self.arena.len();
        self.arena.push(DirectoryItem::new(idx, val));
        assert(self@ =~= a.push((val@, Seq::<usize>::empty())));
        idx
    }
}


proof fn lemma_find_node(a: Seq<(Seq<char>, Seq<usize>)>, val: Seq<char>, from: int)
    requires
        0 <= from,
    ensures
        find_node(a, val, from) matches Some(i) ==> from <= i < a.len() && a[i].0 == val,
        find_node(a, val, from) is None ==> forall|j: int| from <= j < a.len() ==> a[j].0 != val,
    decreases a.len() - from,
{
    if from < a.len() && a[from].0 != val {
        lemma_find_node(a, val, from + 1);
    }
}

/// Adding a node keeps the arena well formed, keeps the nodes there, and
/// gives the position of a node of that name.
proof fn lemma_with_node(a: Seq<(Seq<char>, Seq<usize>)>, val: Seq<char>)
    requires
        arena_wf(a),
    ensures
        arena_wf(with_node(a, val).0),
        0 <= with_node(a, val).1 < with_node(a, val).0.len(),
        with_node(a, val).0[with_node(a, val).1].0 == val,
        a.len() <= with_node(a, val).0.len() <= a.len() + 1,
        forall|i: int| 0 <= i < a.len() ==> #[trigger] with_node(a, val).0[i] == a[i],
{
    lemma_find_node(a, val, 0);
    let b = with_node(a, val).0;
    assert forall|i: int, k: int| 0 <= i < b.len() && 0 <= k < b[i].1.len() implies #[trigger] b[i].1[k] < b.len() by {
        if i < a.len() {
            assert(b[i] == a[i]);
        }
    }
}

/// Linking a child keeps the arena well formed and the names of its nodes.
proof fn lemma_link_child(a: Seq<(Seq<char>, Seq<usize>)>, base: int, node: usize)
    requires
        arena_wf(a),
        0 <= base < a.len(),
        node < a.len(),
    ensures
        arena_wf(link_child(a, base, node)),
        link_child(a, base, node).len() == a.len(),
        forall|i: int| 0 <= i < a.len() ==> #[trigger] link_child(a, base, node)[i].0 == a[i].0,
{
    let b = link_child(a, base, node);
    assert forall|i: int, k: int| 0 <= i < b.len() && 0 <= k < b[i].1.len() implies #[trigger] b[i].1[k] < b.len() by {
        if i == base && !a[base].1.contains(node) {
            if k < a[base].1.len() {
                assert(b[i].1[k] == a[base].1[k]);
            }
        }
    }
}

/// Whether `x` is among the positions in `v`.
fn contains_position(v: &Vec<usize>, x: usize) -> (res: bool)
    ensures
        res == v@.contains(x),
{
    let mut i: usize = 0;
    while i < v.len()
        invariant
            i <= v@.len(),
            forall|k: int| 0 <= k < i ==> v@[k] != x,
        decreases v@.len() - i,
    {
        if v[i] == x {
            return true;
        }
        i += 1;
    }
    false
}

/// The segments of a page path that name nodes.
fn path_segments(path: &str) -> (res: Vec<Vec<char>>)
    ensures
        views(res@) == segments_of(path_components_of(path@)),
{
    let comps = path_components(path);
    let ghost cv = path_components_of(path@);
    let mut res: Vec<Vec<char>> = Vec::new();
    let mut i: usize = 0;
    proof {
        reveal_strlit(".md");
        reveal_strlit("");
        assert(""@ =~= Seq::<char>::empty());
        assert(cv.take(0) =~= Seq::<Seq<char>>::empty());
    }
    while i < comps.len()
        invariant
            i <= comps@.len(),
            cv == path_components_of(path@),
            cv == Seq::new(comps@.len(), |k: int| comps@[k]@),
            views(res@) == segments_of(cv.take(i as int)),
        decreases comps@.len() - i,
    {
        assert(cv.take(i + 1).drop_last() =~= cv.take(i as int));
        assert(cv.take(i + 1).last() == comps@[i as int]@);
        proof {
            reveal_strlit(".md");
            reveal_strlit("");
            assert(""@ =~= Seq::<char>::empty());
        }
        let seg = replace(comps[i].as_str(), ".md", "");
        if !str_eq(seg.as_str(), "404") {
            let ghost before = res@;
            res.push(chars_of(seg.as_str()));
            assert(views(res@) =~= views(before).push(seg@));
        }
        i += 1;
    }
    assert(cv.take(comps@.len() as int) =~= cv);
    res
}

impl DirectoryTree {
    /// Adds `node` at the end of the children of `base`, where it is not
    /// among them yet.
    fn add_child(&mut self, base: usize, node: usize)
        requires
            base < old(self).arena@.len(),
            forall|i: int| 0 <= i < old(self).arena@.len() ==> #[trigger] old(self).arena@[i].idx == i,
        ensures
            final(self)@ == link_child(old(self)@, base as int, node),
            forall|i: int| 0 <= i < final(self).arena@.len() ==> #[trigger] final(self).arena@[i].idx == i,
    {
        if !contains_position(&self.arena[base].children, node) {
            let ghost a = self@;
            self.arena[base].children.push(node);
            assert(self@ =~= a.update(base as int, (a[base as int].0, a[base as int].1.push(node))));
        }
    }

    /// Hangs one path of segments below the root.
    fn add_path(&mut self, segs: &Vec<Vec<char>>)
        requires
            old(self).wf(),
        ensures
            final(self).wf(),
            final(self)@ == add_segments(old(self)@, 0, views(segs@)),
    {
        let ghost target = add_segments(self@, 0, views(segs@));
        let ghost sv = views(segs@);
        let mut base: usize = 0;
        let mut j: usize = 0;
        assert(sv.skip(0) =~= sv);
        while j < segs.len()
            invariant
                j <= segs@.len(),
                sv == views(segs@),
                self.wf(),
                base < self@.len(),
                add_segments(self@, base as int, sv.skip(j as int)) == target,
            decreases segs@.len() - j,
        {
            let ghost a = self@;
            proof {
                lemma_with_node(a, sv[j as int]);
                assert(sv.skip(j as int)[0] == sv[j as int]);
                assert(sv.skip(j as int).drop_first() =~= sv.skip(j + 1));
            }
            let node = self.node(string_of(&segs[j]));
            proof {
                lemma_link_child(self@, base as int, node);
            }
            self.add_child(base, node);
            base = node;
            j += 1;
        }
        assert(sv.skip(j as int) =~= Seq::<Seq<char>>::empty());
    }

    /// The directory of the pages, below a root named `root_name`: the paths
    /// of the pages, each a list of segments (its components without `.md`,
    /// `404` left out), are sorted and hung below the root one after the
    /// other; a segment becomes the node of its name, made where there is none.
    pub fn from_entries(entries: &Vec<Entry>, root_name: &str) -> (res: Self)
        ensures
            res.wf(),
            res@ == tree_of(
                Seq::new(entries@.len(), |i: int| segments_of(path_components_of(entries@[i].path@))),
                root_name@,
            ),
    {
        let ghost ps = Seq::new(entries@.len(), |i: int| segments_of(path_components_of(entries@[i].path@)));
        let mut paths: Vec<Vec<Vec<char>>> = Vec::new();
        let mut i: usize = 0;
        while i < entries.len()
            invariant
                i <= entries@.len(),
                ps == Seq::new(entries@.len(), |k: int| segments_of(path_components_of(entries@[k].path@))),
                paths_view(paths@) == ps.take(i as int),
            decreases entries@.len() - i,
        {
            let segs = path_segments(entries[i].path.as_str());
            assert(views(segs@) == ps[i as int]);
            let ghost before = paths@;
            assert(paths_view(before).len() == before.len());
            assert(before.len() == i);
            paths.push(segs);
            assert forall|k: int| 0 <= k < i + 1 implies #[trigger] paths_view(paths@)[k] == ps.take(i + 1)[k] by {
                if k < i {
                    assert(paths@[k] == before[k]);
                    assert(paths_view(before)[k] == ps.take(i as int)[k]);
                }
            }
            assert(paths_view(paths@) =~= ps.take(i + 1));
            i += 1;
        }
        assert(ps.take(entries@.len() as int) =~= ps);
        let sorted = sort_path_list(paths);
        let ghost sp = paths_view(sorted@);
        let mut tree = DirectoryTree { arena: Vec::new() };
        let directory = tree.node(root_name.to_string());
        assert(tree@ =~= seq![(root_name@, Seq::<usize>::empty())]);
        let mut k: usize = 0;
        assert(sp.take(0) =~= Seq::<Seq<Seq<char>>>::empty());
        while k < sorted.len()
            invariant
                k <= sorted@.len(),
                sp == paths_view(sorted@),
                tree.wf(),
                tree@ == add_paths(seq![(root_name@, Seq::<usize>::empty())], sp.take(k as int)),
            decreases sorted@.len() - k,
        {
            assert(sp.take(k + 1).drop_last() =~= sp.take(k as int));
            assert(sp.take(k + 1).last() == views(sorted@[k as int]@));
            tree.add_path(&sorted[k]);
            k += 1;
        }
        assert(sp.take(sorted@.len() as int) =~= sp);
        tree
    }
}


// ---------------------------------------------------------------------------
// Rendering
// ---------------------------------------------------------------------------

/// Opens the HTML of a node with children, before its depth.
pub const DETAILS_OPEN: &'static str = "<details style=\"--depth: ";
/// Between the depth and the name of a node with children.
pub const DETAILS_SUMMARY: &'static str = "\"><summary>";
/// After the name of a node with children.
pub const SUMMARY_CLOSE: &'static str = "</summary>\n";
/// Closes the HTML of a node with children.
pub const DETAILS_CLOSE: &'static str = "</details>\n";
/// Before the name of a leaf in the HTML.
pub const LEAF_OPEN: &'static str = "\n* [[";
/// After the name of a leaf in the HTML.
pub const LEAF_CLOSE: &'static str = "]]\n";
/// One level of indentation of the directory page.
pub const INDENT: &'static str = "  ";
/// Before the name of a node with children on the directory page.
pub const PAGE_ITEM: &'static str = "* ";
/// Before the name of a leaf on the directory page.
pub const PAGE_LEAF: &'static str = "* [[";
/// After the name of a leaf on the directory page.
pub const PAGE_LEAF_CLOSE: &'static str = "]]\n";

/// What is written before the children of a node named `val` at depth `d`:
/// an HTML `details` element, or on the directory page an indented item.
pub open spec fn branch_open(page: bool, d: int, val: Seq<char>) -> Seq<char> {
    if page {
        repeat_seq(INDENT@, d as nat) + PAGE_ITEM@ + val + seq!['\n']
    } else {
        DETAILS_OPEN@ + decimal_seq(d as nat) + DETAILS_SUMMARY@ + val + SUMMARY_CLOSE@
    }
}

/// What is written after the children of a node.
pub open spec fn branch_close(page: bool) -> Seq<char> {
    if page {
        Seq::empty()
    } else {
        DETAILS_CLOSE@
    }
}

/// What is written for a node without children, named `val`, at depth `d`:
/// a link to the page of that name.
pub open spec fn leaf_text(page: bool, d: int, val: Seq<char>) -> Seq<char> {
    if page {
        repeat_seq(INDENT@, d as nat) + PAGE_LEAF@ + val + PAGE_LEAF_CLOSE@
    } else {
        LEAF_OPEN@ + val + LEAF_CLOSE@
    }
}

/// The text of node `i` at depth `d` and of everything below it, children in
/// order, each one level deeper; `None` where a node with children would sit
/// at depth 255 or more, where a depth held in a byte runs out (as on a cycle).
pub open spec fn render_node(a: Seq<(Seq<char>, Seq<usize>)>, i: int, d: int, page: bool) -> Option<Seq<char>>
    decreases 256 - d, 0int, 0int,
{
    if !(0 <= i < a.len()) || d < 0 {
        None
    } else if a[i].1.len() > 0 {
        if d >= 255 {
            None
        } else {
            match render_children(a, a[i].1, d + 1, page) {
                Some(inner) => Some(branch_open(page, d, a[i].0) + inner + branch_close(page)),
                None => None,
            }
        }
    } else {
        Some(leaf_text(page, d, a[i].0))
    }
}

/// The texts of the nodes `kids` at depth `d`, one after the other.
pub open spec fn render_children(a: Seq<(Seq<char>, Seq<usize>)>, kids: Seq<usize>, d: int, page: bool) -> Option<Seq<char>>
    decreases 256 - d, 1int, kids.len(),
{
    if kids.len() == 0 {
        Some(Seq::empty())
    } else {
        match render_children(a, kids.drop_last(), d, page) {
            Some(x) => match render_node(a, kids.last() as int, d, page) {
                Some(y) => Some(x + y),
                None => None,
            },
            None => None,
        }
    }
}

proof fn lemma_children_none(a: Seq<(Seq<char>, Seq<usize>)>, kids: Seq<usize>, n: int, d: int, page: bool)
    requires
        0 <= n <= kids.len(),
        render_children(a, kids.take(n), d, page) is None,
    ensures
        render_children(a, kids, d, page) is None,
    decreases kids.len() - n,
{
    if n < kids.len() {
        assert(kids.take(n + 1).drop_last() =~= kids.take(n));
        lemma_children_none(a, kids, n + 1, d, page);
    } else {
        assert(kids.take(n) =~= kids);
    }
}

impl DirectoryTree {
    /// Writes the text of node `i` at depth `d` and everything below it;
    /// false where the depth runs out.
    fn traverse(&self, i: usize, d: u8, page: bool, res: &mut String) -> (ok: bool)
        requires
            self.wf(),
            i < self@.len(),
        ensures
            match render_node(self@, i as int, d as int, page) {
                Some(t) => ok && final(res)@ == old(res)@ + t,
                None => !ok,
            },
        decreases 255 - d,
    {
        let ghost a = self@;
        assert(a[i as int] == item_view(self.arena@[i as int]));
        let item = &self.arena[i];
        proof {
            reveal_strlit("<details style=\"--depth: ");
            reveal_strlit("\"><summary>");
            reveal_strlit("</summary>\n");
            reveal_strlit("</details>\n");
            reveal_strlit("\n* [[");
            reveal_strlit("]]\n");
            reveal_strlit("  ");
            reveal_strlit("* ");
            reveal_strlit("* [[");
        }
        if item.children.len() > 0 {
            if d == 255 {
                return false;
            }
            let ghost start = res@;
            if page {
                push_repeat(res, INDENT, d as u64);
                push_str(res, PAGE_ITEM);
                push_str(res, item.val.as_str());
                push_char(res, '\n');
            } else {
                push_str(res, DETAILS_OPEN);
                push_decimal(res, d as u64);
                push_str(res, DETAILS_SUMMARY);
                push_str(res, item.val.as_str());
                push_str(res, SUMMARY_CLOSE);
            }
            let ghost opened = res@;
            assert(opened =~= start + branch_open(page, d as int, a[i as int].0));
            let ghost kids = a[i as int].1;
            let mut j: usize = 0;
            assert(kids.take(0) =~= Seq::<usize>::empty());
            while j < item.children.len()
                invariant
                    self.wf(),
                    a == self@,
                    i < a.len(),
                    item == &self.arena@[i as int],
                    kids == item.children@,
                    j <= kids.len(),
                    d < 255,
                    render_children(a, kids.take(j as int), d + 1, page) matches Some(x) && res@ == opened + x,
                decreases kids.len() - j,
            {
                assert(kids.take(j + 1).drop_last() =~= kids.take(j as int));
                assert(kids.take(j + 1).last() == kids[j as int]);
                assert(kids[j as int] < a.len());
                let ok = self.traverse(item.children[j], d + 1, page, res);
                if !ok {
                    proof {
                        lemma_children_none(a, kids, j + 1, d + 1, page);
                    }
                    return false;
                }
                j += 1;
            }
            assert(kids.take(j as int) =~= kids);
            if !page {
                push_str(res, DETAILS_CLOSE);
            }
            assert(res@ =~= start + branch_open(page, d as int, a[i as int].0)
                + render_children(a, kids, d + 1, page)->0 + branch_close(page));
            true
        } else {
            let ghost start = res@;
            if page {
                push_repeat(res, INDENT, d as u64);
                push_str(res, PAGE_LEAF);
                push_str(res, item.val.as_str());
                push_str(res, PAGE_LEAF_CLOSE);
            } else {
                push_str(res, LEAF_OPEN);
                push_str(res, item.val.as_str());
                push_str(res, LEAF_CLOSE);
            }
            assert(res@ =~= start + leaf_text(page, d as int, a[i as int].0));
            true
        }
    }

    /// The directory as nested HTML `details` elements, from the root at
    /// depth 0, a leaf as a link; `None` where a node with children sits 255
    /// levels deep (as below a cycle of names).
    pub fn to_string(&self) -> (res: Option<String>)
        requires
            self.wf(),
        ensures
            match render_node(self@, 0, 0, false) {
                Some(t) => res matches Some(s) && s@ == t,
                None => res is None,
            },
    {
        let mut formatted = String::new();
        if self.traverse(0, 0, false, &mut formatted) {
            Some(formatted)
        } else {
            None
        }
    }

    /// The directory page: `existing_contents`, a line feed, then the
    /// directory as an indented markdown list from the root at depth 0, a
    /// leaf as a link; `None` where a node with children sits 255 levels deep.
    pub fn format_directory_page(&self, existing_contents: &String) -> (res: Option<String>)
        requires
            self.wf(),
        ensures
            match render_node(self@, 0, 0, true) {
                Some(t) => res matches Some(s) && s@ == existing_contents@ + seq!['\n'] + t,
                None => res is None,
            },
    {
        let mut formatted = String::new();
        if self.traverse(0, 0, true, &mut formatted) {
            let mut out = existing_contents.clone();
            push_char(&mut out, '\n');
            push_str(&mut out, formatted.as_str());
            Some(out)
        } else {
            None
        }
    }
}


// ---------------------------------------------------------------------------
// What the directory holds
// ---------------------------------------------------------------------------

/// No two nodes of the arena have the same name.
pub open spec fn names_distinct(a: Seq<(Seq<char>, Seq<usize>)>) -> bool {
    forall|i: int, j: int| 0 <= i < j < a.len() ==> #[trigger] a[i].0 != #[trigger] a[j].0
}

/// Every segment names a node, which is a child of the node of the segment
/// before it (of `base`, for the first segment).
pub open spec fn segments_linked(a: Seq<(Seq<char>, Seq<usize>)>, base: int, segs: Seq<Seq<char>>) -> bool {
    forall|j: int| 0 <= j < segs.len() ==> {
        &&& #[trigger] find_node(a, segs[j], 0) is Some
        &&& a[if j == 0 { base } else { find_node(a, segs[j - 1], 0)->0 }].1.contains(find_node(a, segs[j], 0)->0 as usize)
    }
}

/// Every segment of the path names a node, which is a child of the node of the
/// segment before it (of the root, for the first segment).
pub open spec fn path_linked(a: Seq<(Seq<char>, Seq<usize>)>, p: Seq<Seq<char>>) -> bool {
    segments_linked(a, 0, p)
}

/// `b` keeps every node of `a`, with its name, its children and their order,
/// and may have more nodes and more children after them.
pub open spec fn grows(a: Seq<(Seq<char>, Seq<usize>)>, b: Seq<(Seq<char>, Seq<usize>)>) -> bool {
    &&& a.len() <= b.len()
    &&& forall|i: int| 0 <= i < a.len() ==> {
        &&& (#[trigger] b[i]).0 == a[i].0
        &&& a[i].1.len() <= b[i].1.len()
        &&& b[i].1.take(a[i].1.len() as int) == a[i].1
    }
}

proof fn lemma_grows_trans(a: Seq<(Seq<char>, Seq<usize>)>, b: Seq<(Seq<char>, Seq<usize>)>, c: Seq<(Seq<char>, Seq<usize>)>)
    requires
        grows(a, b),
        grows(b, c),
    ensures
        grows(a, c),
{
    assert forall|i: int| 0 <= i < a.len() implies {
        &&& (#[trigger] c[i]).0 == a[i].0
        &&& a[i].1.len() <= c[i].1.len()
        &&& c[i].1.take(a[i].1.len() as int) == a[i].1
    } by {
        assert(b[i].0 == a[i].0);
        assert(c[i].0 == b[i].0);
        assert(c[i].1.take(a[i].1.len() as int) =~= c[i].1.take(b[i].1.len() as int).take(a[i].1.len() as int));
    }
}

proof fn lemma_grows_find(a: Seq<(Seq<char>, Seq<usize>)>, b: Seq<(Seq<char>, Seq<usize>)>, v: Seq<char>, from: int)
    requires
        grows(a, b),
        0 <= from,
        find_node(a, v, from) is Some,
    ensures
        find_node(b, v, from) == find_node(a, v, from),
    decreases a.len() - from,
{
    if from < a.len() {
        assert(b[from].0 == a[from].0);
        if a[from].0 != v {
            lemma_grows_find(a, b, v, from + 1);
        }
    }
}

proof fn lemma_grows_child(a: Seq<(Seq<char>, Seq<usize>)>, b: Seq<(Seq<char>, Seq<usize>)>, i: int, x: usize)
    requires
        grows(a, b),
        0 <= i < a.len(),
        a[i].1.contains(x),
    ensures
        b[i].1.contains(x),
{
    let k = choose|k: int| 0 <= k < a[i].1.len() && a[i].1[k] == x;
    assert(b[i].0 == a[i].0);
    assert(b[i].1.take(a[i].1.len() as int)[k] == b[i].1[k]);
}

proof fn lemma_grows_refl(a: Seq<(Seq<char>, Seq<usize>)>)
    ensures
        grows(a, a),
{
    assert forall|i: int| 0 <= i < a.len() implies {
        &&& (#[trigger] a[i]).0 == a[i].0
        &&& a[i].1.len() <= a[i].1.len()
        &&& a[i].1.take(a[i].1.len() as int) == a[i].1
    } by {
        assert(a[i].1.take(a[i].1.len() as int) =~= a[i].1);
    }
}

/// What one step of hanging a segment does: the node of the segment is the
/// first of its name, linked below `base`, and the arena only grows.
proof fn lemma_step(a: Seq<(Seq<char>, Seq<usize>)>, base: int, v: Seq<char>)
    requires
        arena_wf(a),
        0 <= base < a.len(),
    ensures
        ({
            let (a1, n) = with_node(a, v);
            let a2 = link_child(a1, base, n as usize);
            &&& arena_wf(a2)
            &&& 0 <= n < a2.len()
            &&& grows(a, a2)
            &&& find_node(a2, v, 0) == Some(n)
            &&& a2[base].1.contains(n as usize)
            &&& (names_distinct(a) ==> names_distinct(a2))
        }),
{
    let (a1, n) = with_node(a, v);
    lemma_with_node(a, v);
    lemma_find_node(a, v, 0);
    lemma_link_child(a1, base, n as usize);
    let a2 = link_child(a1, base, n as usize);
    assert forall|i: int| 0 <= i < a.len() implies {
        &&& (#[trigger] a2[i]).0 == a[i].0
        &&& a[i].1.len() <= a2[i].1.len()
        &&& a2[i].1.take(a[i].1.len() as int) == a[i].1
    } by {
        assert(a1[i] == a[i]);
        if i == base && !a1[base].1.contains(n as usize) {
            assert(a2[i].1.take(a[i].1.len() as int) =~= a[i].1);
        } else {
            assert(a2[i] == a1[i]);
            assert(a2[i].1.take(a[i].1.len() as int) =~= a[i].1);
        }
    }
    lemma_grows_refl(a1);
    if find_node(a, v, 0) is Some {
        lemma_grows_find(a, a2, v, 0);
    } else {
        assert forall|j: int| 0 <= j < a2.len() - 1 implies a2[j].0 != v by {
            assert(a2[j].0 == a[j].0);
        }
        lemma_find_none_then_last(a2, v, 0);
    }
    if !a1[base].1.contains(n as usize) {
        assert(a2[base].1[a1[base].1.len() as int] == n as usize);
    }
    if names_distinct(a) {
        assert forall|i: int, j: int| 0 <= i < j < a2.len() implies #[trigger] a2[i].0 != #[trigger] a2[j].0 by {
            if j < a.len() {
                assert(a2[i].0 == a[i].0);
                assert(a2[j].0 == a[j].0);
            } else {
                assert(a2[i].0 == a[i].0);
            }
        }
    }
}

proof fn lemma_find_none_then_last(a: Seq<(Seq<char>, Seq<usize>)>, v: Seq<char>, from: int)
    requires
        a.len() >= 1,
        0 <= from < a.len(),
        a[a.len() - 1].0 == v,
        forall|j: int| 0 <= j < a.len() - 1 ==> a[j].0 != v,
    ensures
        find_node(a, v, from) == Some(a.len() - 1),
    decreases a.len() - from,
{
    if from < a.len() - 1 {
        lemma_find_none_then_last(a, v, from + 1);
    }
}

/// Hanging a path below `base` links each of its segments below the one
/// before, keeps the arena well formed, and only grows it.
proof fn lemma_add_segments(a: Seq<(Seq<char>, Seq<usize>)>, base: int, segs: Seq<Seq<char>>)
    requires
        arena_wf(a),
        0 <= base < a.len(),
    ensures
        arena_wf(add_segments(a, base, segs)),
        grows(a, add_segments(a, base, segs)),
        names_distinct(a) ==> names_distinct(add_segments(a, base, segs)),
        segments_linked(add_segments(a, base, segs), base, segs),
    decreases segs.len(),
{
    if segs.len() == 0 {
        lemma_grows_refl(a);
    } else {
        let (a1, n) = with_node(a, segs[0]);
        let a2 = link_child(a1, base, n as usize);
        lemma_step(a, base, segs[0]);
        let rest = segs.drop_first();
        lemma_add_segments(a2, n, rest);
        let r = add_segments(a2, n, rest);
        assert(r == add_segments(a, base, segs));
        lemma_grows_trans(a, a2, r);
        lemma_grows_find(a2, r, segs[0], 0);
        lemma_grows_child(a2, r, base, n as usize);
        assert forall|j: int| 0 <= j < segs.len() implies {
            &&& #[trigger] find_node(r, segs[j], 0) is Some
            &&& r[if j == 0 { base } else { find_node(r, segs[j - 1], 0)->0 }].1.contains(find_node(r, segs[j], 0)->0 as usize)
        } by {
            if j > 0 {
                assert(rest[j - 1] == segs[j]);
                assert(find_node(r, rest[j - 1], 0) is Some);
                if j > 1 {
                    assert(rest[j - 2] == segs[j - 1]);
                }
            }
        }
    }
}

/// Hanging paths one after the other keeps the arena well formed, only grows
/// it, and links every path.
proof fn lemma_add_paths(a: Seq<(Seq<char>, Seq<usize>)>, paths: Seq<Seq<Seq<char>>>)
    requires
        arena_wf(a),
    ensures
        arena_wf(add_paths(a, paths)),
        grows(a, add_paths(a, paths)),
        names_distinct(a) ==> names_distinct(add_paths(a, paths)),
        forall|k: int| 0 <= k < paths.len() ==> path_linked(add_paths(a, paths), #[trigger] paths[k]),
    decreases paths.len(),
{
    if paths.len() == 0 {
        lemma_grows_refl(a);
    } else {
        let prev = add_paths(a, paths.drop_last());
        lemma_add_paths(a, paths.drop_last());
        let p = paths.last();
        lemma_add_segments(prev, 0, p);
        let r = add_segments(prev, 0, p);
        lemma_grows_trans(a, prev, r);
        assert forall|k: int| 0 <= k < paths.len() implies path_linked(r, #[trigger] paths[k]) by {
            if k == paths.len() - 1 {
                assert(segments_linked(r, 0, p));
            } else {
                let q = paths[k];
                assert(paths.drop_last()[k] == q);
                assert(path_linked(prev, q));
                assert forall|j: int| 0 <= j < q.len() implies {
                    &&& #[trigger] find_node(r, q[j], 0) is Some
                    &&& r[if j == 0 { 0 } else { find_node(r, q[j - 1], 0)->0 }].1.contains(find_node(r, q[j], 0)->0 as usize)
                } by {
                    assert(find_node(prev, q[j], 0) is Some);
                    lemma_grows_find(prev, r, q[j], 0);
                    lemma_find_node(prev, q[j], 0);
                    if j > 0 {
                        assert(find_node(prev, q[j - 1], 0) is Some);
                        lemma_grows_find(prev, r, q[j - 1], 0);
                        lemma_find_node(prev, q[j - 1], 0);
                    }
                    lemma_grows_child(prev, r, if j == 0 { 0 } else { find_node(prev, q[j - 1], 0)->0 }, find_node(prev, q[j], 0)->0 as usize);
                }
            }
        }
    }
}


proof fn lemma_insert_pos(s: Seq<Seq<Seq<char>>>, x: Seq<Seq<char>>, from: int)
    requires
        0 <= from,
    ensures
        0 <= insert_pos(s, x, from) <= s.len(),
    decreases s.len() - from,
{
    if from < s.len() && !path_lt(x, s[from]) {
        lemma_insert_pos(s, x, from + 1);
    }
}

/// Sorting keeps every path.
proof fn lemma_sort_keeps(ps: Seq<Seq<Seq<char>>>, k: int)
    requires
        0 <= k < ps.len(),
    ensures
        sort_paths(ps).contains(ps[k]),
    decreases ps.len(),
{
    let s = sort_paths(ps.drop_last());
    let x = ps.last();
    let pos = insert_pos(s, x, 0);
    lemma_insert_pos(s, x, 0);
    let r = s.take(pos).push(x) + s.skip(pos);
    assert(r == sort_paths(ps));
    if k == ps.len() - 1 {
        assert(r[pos] == x);
    } else {
        assert(ps.drop_last()[k] == ps[k]);
        lemma_sort_keeps(ps.drop_last(), k);
        let m = choose|m: int| 0 <= m < s.len() && s[m] == ps[k];
        if m < pos {
            assert(r[m] == s[m]);
        } else {
            assert(r[m + 1] == s[m]);
        }
    }
}

/// Every page path is in the directory: each of its segments names a node,
/// the first a child of the root, each other one a child of the node of the
/// segment before it.
pub proof fn lemma_directory_holds_every_path(paths: Seq<Seq<Seq<char>>>, root: Seq<char>, k: int)
    requires
        0 <= k < paths.len(),
    ensures
        path_linked(tree_of(paths, root), paths[k]),
{
    let a0 = seq![(root, Seq::<usize>::empty())];
    let sorted = sort_paths(paths);
    lemma_sort_keeps(paths, k);
    let m = choose|m: int| 0 <= m < sorted.len() && sorted[m] == paths[k];
    lemma_add_paths(a0, sorted);
    assert(path_linked(add_paths(a0, sorted), sorted[m]));
}

/// The directory is well formed, its root is node 0 with the root's name,
/// and no two of its nodes share a name.
pub proof fn lemma_directory_well_formed(paths: Seq<Seq<Seq<char>>>, root: Seq<char>)
    ensures
        arena_wf(tree_of(paths, root)),
        tree_of(paths, root)[0].0 == root,
        names_distinct(tree_of(paths, root)),
{
    let a0 = seq![(root, Seq::<usize>::empty())];
    lemma_add_paths(a0, sort_paths(paths));
    assert(grows(a0, tree_of(paths, root)));
    assert(tree_of(paths, root)[0].0 == a0[0].0);
}


/// The HTML of a node and its directory-page text fail on the same nodes.
pub proof fn lemma_render_node_shape(a: Seq<(Seq<char>, Seq<usize>)>, i: int, d: int)
    ensures
        render_node(a, i, d, true) is Some <==> render_node(a, i, d, false) is Some,
    decreases 256 - d, 0int, 0int,
{
    if 0 <= i < a.len() && d >= 0 && a[i].1.len() > 0 && d < 255 {
        lemma_render_children_shape(a, a[i].1, d + 1);
    }
}

/// The HTML of some nodes and their directory-page text fail on the same nodes.
pub proof fn lemma_render_children_shape(a: Seq<(Seq<char>, Seq<usize>)>, kids: Seq<usize>, d: int)
    ensures
        render_children(a, kids, d, true) is Some <==> render_children(a, kids, d, false) is Some,
    decreases 256 - d, 1int, kids.len(),
{
    if kids.len() > 0 {
        lemma_render_children_shape(a, kids.drop_last(), d);
        lemma_render_node_shape(a, kids.last() as int, d);
    }
}


proof fn lemma_path_lt_irreflexive(a: Seq<Seq<char>>)
    ensures
        !path_lt(a, a),
    decreases a.len(),
{
    if a.len() > 0 {
        lemma_path_lt_irreflexive(a.drop_first());
    }
}

proof fn lemma_path_lt_transitive(a: Seq<Seq<char>>, b: Seq<Seq<char>>, c: Seq<Seq<char>>)
    requires
        path_lt(a, b),
        path_lt(b, c),
    ensures
        path_lt(a, c),
    decreases a.len(),
{
    if a.len() > 0 && b.len() > 0 && c.len() > 0 {
        if a[0] == b[0] && b[0] == c[0] {
            lemma_path_lt_transitive(a.drop_first(), b.drop_first(), c.drop_first());
        } else if a[0] != b[0] && b[0] != c[0] {
            lemma_chars_lt_transitive(a[0], b[0], c[0]);
            if a[0] == c[0] {
                lemma_chars_lt_irreflexive(a[0]);
            }
        }
    }
}

/// Path `a` is a proper prefix of path `b`.
pub open spec fn proper_prefix(a: Seq<Seq<char>>, b: Seq<Seq<char>>) -> bool {
    a.len() < b.len() && forall|m: int| 0 <= m < a.len() ==> #[trigger] a[m] == b[m]
}

/// Paths `a` and `b` agree on their first `k` segments and differ at segment
/// `k`, where `a`'s segment comes first.
pub open spec fn first_difference_below(a: Seq<Seq<char>>, b: Seq<Seq<char>>, k: int) -> bool {
    &&& 0 <= k < a.len()
    &&& k < b.len()
    &&& forall|m: int| 0 <= m < k ==> #[trigger] a[m] == b[m]
    &&& a[k] != b[k]
    &&& chars_lt(a[k], b[k])
}

/// The lexicographic order of segment lists: `a` is a proper prefix of `b`,
/// or at the first segment where they differ `a`'s comes before `b`'s.
pub open spec fn lex_before(a: Seq<Seq<char>>, b: Seq<Seq<char>>) -> bool {
    ||| proper_prefix(a, b)
    ||| exists|k: int| #[trigger] first_difference_below(a, b, k)
}

/// Paths that start with the same segment are ordered by the rest of their
/// segments.
pub proof fn lemma_path_lt_shared_first(a: Seq<Seq<char>>, b: Seq<Seq<char>>)
    requires
        a.len() > 0,
        b.len() > 0,
        a[0] == b[0],
    ensures
        path_lt(a, b) == path_lt(a.drop_first(), b.drop_first()),
{
}

/// The order in which paths are sorted is the lexicographic order of their
/// segment lists, every segment counting, not only the first.
pub proof fn lemma_path_lt_lexicographic(a: Seq<Seq<char>>, b: Seq<Seq<char>>)
    ensures
        path_lt(a, b) == lex_before(a, b),
    decreases a.len(),
{
    if a.len() == 0 {
        if b.len() > 0 {
            assert(proper_prefix(a, b));
        }
        assert(forall|k: int| !first_difference_below(a, b, k));
    } else if b.len() == 0 {
        assert(forall|k: int| !first_difference_below(a, b, k));
    } else if a[0] != b[0] {
        assert(!proper_prefix(a, b)) by {
            if proper_prefix(a, b) {
                assert(a[0] == b[0]);
            }
        }
        assert forall|k: int| first_difference_below(a, b, k) implies k == 0 by {
            if k > 0 {
                assert(a[0] == b[0]);
            }
        }
        if chars_lt(a[0], b[0]) {
            assert(first_difference_below(a, b, 0));
        }
    } else {
        let a1 = a.drop_first();
        let b1 = b.drop_first();
        lemma_path_lt_lexicographic(a1, b1);
        assert(proper_prefix(a, b) == proper_prefix(a1, b1)) by {
            if proper_prefix(a1, b1) {
                assert forall|m: int| 0 <= m < a.len() implies #[trigger] a[m] == b[m] by {
                    if m > 0 {
                        assert(a1[m - 1] == b1[m - 1]);
                    }
                }
            }
            if proper_prefix(a, b) {
                assert forall|m: int| 0 <= m < a1.len() implies #[trigger] a1[m] == b1[m] by {
                    assert(a[m + 1] == b[m + 1]);
                }
            }
        }
        assert((exists|k: int| #[trigger] first_difference_below(a, b, k)) == (exists|k: int|
            #[trigger] first_difference_below(a1, b1, k))) by {
            if exists|k: int| #[trigger] first_difference_below(a, b, k) {
                let k = choose|k: int| #[trigger] first_difference_below(a, b, k);
                assert(k > 0);
                assert forall|m: int| 0 <= m < k - 1 implies #[trigger] a1[m] == b1[m] by {
                    assert(a[m + 1] == b[m + 1]);
                }
                assert(first_difference_below(a1, b1, k - 1));
            }
            if exists|k: int| #[trigger] first_difference_below(a1, b1, k) {
                let k = choose|k: int| #[trigger] first_difference_below(a1, b1, k);
                assert forall|m: int| 0 <= m < k + 1 implies #[trigger] a[m] == b[m] by {
                    if m > 0 {
                        assert(a1[m - 1] == b1[m - 1]);
                    }
                }
                assert(first_difference_below(a, b, k + 1));
            }
        }
    }
}

/// Sorting puts the paths in lexicographic order of their segment lists: no
/// path of the result comes, segment by segment, before one listed earlier.
pub proof fn lemma_sorted_paths_lexicographic(ps: Seq<Seq<Seq<char>>>)
    ensures
        forall|i: int, j: int|
            0 <= i < j < sort_paths(ps).len() ==> !lex_before(#[trigger] sort_paths(ps)[j], #[trigger] sort_paths(ps)[i]),
{
    lemma_sort_paths_sorted(ps);
    let s = sort_paths(ps);
    assert forall|i: int, j: int| 0 <= i < j < s.len() implies !lex_before(#[trigger] s[j], #[trigger] s[i]) by {
        lemma_path_lt_lexicographic(s[j], s[i]);
    }
}

/// Paths in ascending order: no path comes before one listed earlier.
pub open spec fn paths_sorted(s: Seq<Seq<Seq<char>>>) -> bool {
    forall|i: int, j: int| 0 <= i < j < s.len() ==> !path_lt(#[trigger] s[j], #[trigger] s[i])
}

proof fn lemma_insert_pos_before(s: Seq<Seq<Seq<char>>>, x: Seq<Seq<char>>, from: int, i: int)
    requires
        0 <= from <= i < insert_pos(s, x, from),
    ensures
        !path_lt(x, s[i]),
    decreases s.len() - from,
{
    if from < i {
        lemma_insert_pos_before(s, x, from + 1, i);
    }
}

proof fn lemma_insert_pos_at(s: Seq<Seq<Seq<char>>>, x: Seq<Seq<char>>, from: int)
    requires
        0 <= from,
        insert_pos(s, x, from) < s.len(),
    ensures
        path_lt(x, s[insert_pos(s, x, from)]),
    decreases s.len() - from,
{
    if from < s.len() && !path_lt(x, s[from]) {
        lemma_insert_pos_at(s, x, from + 1);
    }
}

proof fn lemma_sort_paths_len(ps: Seq<Seq<Seq<char>>>)
    ensures
        sort_paths(ps).len() == ps.len(),
    decreases ps.len(),
{
    if ps.len() > 0 {
        lemma_sort_paths_len(ps.drop_last());
        lemma_insert_pos(sort_paths(ps.drop_last()), ps.last(), 0);
    }
}

/// The paths are hung in ascending order: sorting leaves every path after
/// all those that come before it, and keeps them all.
pub proof fn lemma_sort_paths_sorted(ps: Seq<Seq<Seq<char>>>)
    ensures
        paths_sorted(sort_paths(ps)),
        sort_paths(ps).len() == ps.len(),
        forall|k: int| 0 <= k < ps.len() ==> sort_paths(ps).contains(#[trigger] ps[k]),
    decreases ps.len(),
{
    lemma_sort_paths_len(ps);
    assert forall|k: int| 0 <= k < ps.len() implies sort_paths(ps).contains(#[trigger] ps[k]) by {
        lemma_sort_keeps(ps, k);
    }
    if ps.len() > 0 {
        lemma_sort_paths_sorted(ps.drop_last());
        let s = sort_paths(ps.drop_last());
        let x = ps.last();
        let k = insert_pos(s, x, 0);
        lemma_insert_pos(s, x, 0);
        let r = s.take(k).push(x) + s.skip(k);
        assert(r == sort_paths(ps));
        assert forall|i: int, j: int| 0 <= i < j < r.len() implies !path_lt(#[trigger] r[j], #[trigger] r[i]) by {
            if j < k {
                assert(r[i] == s[i] && r[j] == s[j]);
            } else if j == k {
                assert(r[i] == s[i] && r[j] == x);
                lemma_insert_pos_before(s, x, 0, i);
            } else if i < k {
                assert(r[i] == s[i] && r[j] == s[j - 1]);
            } else if i == k {
                assert(r[i] == x && r[j] == s[j - 1]);
                lemma_insert_pos_at(s, x, 0);
                if path_lt(s[j - 1], x) {
                    lemma_path_lt_transitive(s[j - 1], x, s[k]);
                    if j - 1 == k {
                        lemma_path_lt_irreflexive(s[k]);
                    }
                }
            } else {
                assert(r[i] == s[i - 1] && r[j] == s[j - 1]);
            }
        }
    }
}


/// No node lists the same child twice.
pub open spec fn children_distinct(a: Seq<(Seq<char>, Seq<usize>)>) -> bool {
    forall|i: int, k1: int, k2: int|
        0 <= i < a.len() && 0 <= k1 < k2 < a[i].1.len() ==> #[trigger] a[i].1[k1] != #[trigger] a[i].1[k2]
}

/// One step of hanging a segment lists no child twice and names a new node,
/// if any, after the segment.
proof fn lemma_step_children(a: Seq<(Seq<char>, Seq<usize>)>, base: int, v: Seq<char>)
    requires
        arena_wf(a),
        0 <= base < a.len(),
        children_distinct(a),
    ensures
        ({
            let (a1, n) = with_node(a, v);
            let a2 = link_child(a1, base, n as usize);
            &&& children_distinct(a2)
            &&& forall|i: int| a.len() <= i < a2.len() ==> #[trigger] a2[i].0 == v
        }),
{
    let (a1, n) = with_node(a, v);
    lemma_with_node(a, v);
    let a2 = link_child(a1, base, n as usize);
    assert(children_distinct(a1)) by {
        assert forall|i: int, k1: int, k2: int| 0 <= i < a1.len() && 0 <= k1 < k2 < a1[i].1.len() implies
            #[trigger] a1[i].1[k1] != #[trigger] a1[i].1[k2] by {
            if i < a.len() {
                assert(a1[i] == a[i]);
            }
        }
    }
    assert forall|i: int| a.len() <= i < a2.len() implies #[trigger] a2[i].0 == v by {
        lemma_find_node(a, v, 0);
        assert(a2[i].0 == a1[i].0);
    }
    if !a1[base].1.contains(n as usize) {
        assert forall|i: int, k1: int, k2: int| 0 <= i < a2.len() && 0 <= k1 < k2 < a2[i].1.len() implies
            #[trigger] a2[i].1[k1] != #[trigger] a2[i].1[k2] by {
            if i == base {
                if k2 == a1[base].1.len() {
                    assert(a2[i].1[k1] == a1[base].1[k1]);
                    assert(a2[i].1[k2] == n as usize);
                } else {
                    assert(a2[i].1[k1] == a1[base].1[k1]);
                    assert(a2[i].1[k2] == a1[base].1[k2]);
                }
            } else {
                assert(a2[i] == a1[i]);
            }
        }
    }
}

/// Hanging a path lists no child twice and names each new node after one of
/// the path's segments.
proof fn lemma_add_segments_children(a: Seq<(Seq<char>, Seq<usize>)>, base: int, segs: Seq<Seq<char>>)
    requires
        arena_wf(a),
        0 <= base < a.len(),
        children_distinct(a),
    ensures
        children_distinct(add_segments(a, base, segs)),
        forall|i: int| a.len() <= i < add_segments(a, base, segs).len() ==> segs.contains(#[trigger] add_segments(a, base, segs)[i].0),
    decreases segs.len(),
{
    if segs.len() > 0 {
        let (a1, n) = with_node(a, segs[0]);
        let a2 = link_child(a1, base, n as usize);
        lemma_step(a, base, segs[0]);
        lemma_step_children(a, base, segs[0]);
        let rest = segs.drop_first();
        lemma_add_segments_children(a2, n, rest);
        lemma_add_segments(a2, n, rest);
        let r = add_segments(a2, n, rest);
        assert forall|i: int| a.len() <= i < r.len() implies segs.contains(#[trigger] r[i].0) by {
            if i < a2.len() {
                assert(r[i].0 == a2[i].0);
                assert(segs[0] == a2[i].0);
            } else {
                assert(rest.contains(r[i].0));
                let j = choose|j: int| 0 <= j < rest.len() && rest[j] == r[i].0;
                assert(segs[j + 1] == r[i].0);
            }
        }
    }
}

/// Whether some path has `v` among its segments.
pub open spec fn named_in(paths: Seq<Seq<Seq<char>>>, v: Seq<char>) -> bool {
    exists|k: int| 0 <= k < paths.len() && (#[trigger] paths[k]).contains(v)
}

proof fn lemma_add_paths_children(a: Seq<(Seq<char>, Seq<usize>)>, paths: Seq<Seq<Seq<char>>>)
    requires
        arena_wf(a),
        children_distinct(a),
    ensures
        children_distinct(add_paths(a, paths)),
        forall|i: int| a.len() <= i < add_paths(a, paths).len() ==> named_in(paths, #[trigger] add_paths(a, paths)[i].0),
    decreases paths.len(),
{
    if paths.len() > 0 {
        let prev = add_paths(a, paths.drop_last());
        lemma_add_paths_children(a, paths.drop_last());
        lemma_add_paths(a, paths.drop_last());
        lemma_add_segments_children(prev, 0, paths.last());
        lemma_add_segments(prev, 0, paths.last());
        let r = add_segments(prev, 0, paths.last());
        assert forall|i: int| a.len() <= i < r.len() implies named_in(paths, #[trigger] r[i].0) by {
            if i < prev.len() {
                assert(r[i].0 == prev[i].0);
                assert(named_in(paths.drop_last(), prev[i].0));
                let k = choose|k: int| 0 <= k < paths.drop_last().len() && (#[trigger] paths.drop_last()[k]).contains(prev[i].0);
                assert(paths[k] == paths.drop_last()[k]);
            } else {
                assert(paths[paths.len() - 1].contains(r[i].0));
            }
        }
    }
}

/// Sorting brings in no path that was not given.
proof fn lemma_sort_from(ps: Seq<Seq<Seq<char>>>, m: int)
    requires
        0 <= m < sort_paths(ps).len(),
    ensures
        ps.contains(sort_paths(ps)[m]),
    decreases ps.len(),
{
    if ps.len() > 0 {
        let s = sort_paths(ps.drop_last());
        let x = ps.last();
        let k = insert_pos(s, x, 0);
        lemma_insert_pos(s, x, 0);
        let r = s.take(k).push(x) + s.skip(k);
        assert(r == sort_paths(ps));
        if m == k {
            assert(ps[ps.len() - 1] == x);
        } else {
            let q = if m < k { m } else { m - 1 };
            assert(r[m] == s[q]);
            lemma_sort_from(ps.drop_last(), q);
            let t = choose|t: int| 0 <= t < ps.drop_last().len() && ps.drop_last()[t] == s[q];
            assert(ps[t] == s[q]);
        }
    }
}

/// No node of the directory lists a child twice, and every node but the root
/// is named by a segment of one of the page paths.
pub proof fn lemma_directory_nodes(paths: Seq<Seq<Seq<char>>>, root: Seq<char>)
    ensures
        children_distinct(tree_of(paths, root)),
        forall|i: int| 1 <= i < tree_of(paths, root).len() ==> named_in(paths, #[trigger] tree_of(paths, root)[i].0),
{
    let a0 = seq![(root, Seq::<usize>::empty())];
    let sorted = sort_paths(paths);
    lemma_add_paths_children(a0, sorted);
    let t = tree_of(paths, root);
    assert forall|i: int| 1 <= i < t.len() implies named_in(paths, #[trigger] t[i].0) by {
        assert(named_in(sorted, t[i].0));
        let k = choose|k: int| 0 <= k < sorted.len() && (#[trigger] sorted[k]).contains(t[i].0);
        lemma_sort_from(paths, k);
        let q = choose|q: int| 0 <= q < paths.len() && paths[q] == sorted[k];
        assert(paths[q].contains(t[i].0));
    }
}

} // verus!
