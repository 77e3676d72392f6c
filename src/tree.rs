use vstd::prelude::*;
use crate::compare::{last_match, lemma_last_match, step_of, Step};
use crate::pass::{
    after_pass, copied, lemma_copied_unique, lemma_last_match_unique, lemma_second_pass_entry,
    unique_names,
};
use crate::entry::{EntryKind, EntryView};

verus! {

broadcast use vstd::seq::axiom_seq_index_decreases;

/// A filesystem object: a file with its bytes, or a directory with its
/// entries.
pub enum Node {
    File { name: Seq<u8>, content: Seq<u8> },
    Dir { name: Seq<u8>, children: Seq<Node> },
}

impl Node {
    pub open spec fn name(self) -> Seq<u8> {
        match self {
            Node::File { name, .. } => name,
            Node::Dir { name, .. } => name,
        }
    }

    pub open spec fn kind(self) -> EntryKind {
        match self {
            Node::File { .. } => EntryKind::File,
            Node::Dir { .. } => EntryKind::Dir,
        }
    }

    /// What a listing of the enclosing directory shows of this object.
    pub open spec fn entry(self) -> EntryView {
        EntryView { name: self.name(), kind: self.kind() }
    }
}

/// What listing a directory with these entries shows.
pub open spec fn listing(ns: Seq<Node>) -> Seq<EntryView> {
    ns.map_values(|n: Node| n.entry())
}

/// The entries of a target directory once a run has finished with the pair
/// (`src`, `tgt`): the target's own entries, in order, then the copies.
pub open spec fn sync_dir(src: Seq<Node>, tgt: Seq<Node>, recursive: bool) -> Seq<Node>
    decreases src, 2int, 0int,
{
    kept(src, tgt, recursive, tgt.len() as int) + placed(src, tgt, recursive, src.len() as int)
}

/// The first `n` target entries after the run: one the pass descended into
/// holds the result of its own run, every other is as it was.
pub open spec fn kept(src: Seq<Node>, tgt: Seq<Node>, recursive: bool, n: int) -> Seq<Node>
    decreases src, 1int, n,
{
    if n <= 0 {
        Seq::empty()
    } else {
        kept(src, tgt, recursive, n - 1).push(kept_node(src, tgt, recursive, n - 1))
    }
}

/// Target entry `j` after the run.
pub open spec fn kept_node(src: Seq<Node>, tgt: Seq<Node>, recursive: bool, j: int) -> Node
    decreases src, 0int, 0int,
{
    match last_match(listing(src), tgt[j].name(), src.len() as int) {
        Some(i) => {
            if 0 <= i < src.len() && step_of(src[i].entry(), listing(tgt), recursive)
                == (Step::Descend { target: j as usize }) {
                match (src[i], tgt[j]) {
                    (Node::Dir { children: sc, .. }, Node::Dir { name, children: tc }) => {
                        Node::Dir { name, children: sync_dir(sc, tc, recursive) }
                    },
                    _ => tgt[j],
                }
            } else {
                tgt[j]
            }
        },
        None => tgt[j],
    }
}

/// The copies the run makes for the first `n` source entries, in order.
pub open spec fn placed(src: Seq<Node>, tgt: Seq<Node>, recursive: bool, n: int) -> Seq<Node>
    decreases src, 1int, n,
{
    if n <= 0 || n > src.len() {
        Seq::empty()
    } else if step_of(src[n - 1].entry(), listing(tgt), recursive) is Copy {
        placed(src, tgt, recursive, n - 1).push(copy_node(src, n - 1, recursive))
    } else {
        placed(src, tgt, recursive, n - 1)
    }
}

/// The copy of source entry `i`: a file with the same bytes, or a new
/// directory that, when recursing, is filled by a run of its own.
pub open spec fn copy_node(src: Seq<Node>, i: int, recursive: bool) -> Node
    decreases src, 0int, 0int,
{
    if 0 <= i < src.len() {
        match src[i] {
            Node::File { name, content } => Node::File { name, content },
            Node::Dir { name, children } => Node::Dir {
                name,
                children: if recursive {
                    sync_dir(children, Seq::empty(), recursive)
                } else {
                    Seq::empty()
                },
            },
        }
    } else {
        src[i]
    }
}

/// Whether the objects `old` listed are all still in `new`, at the same
/// places: each file with the same bytes, each directory as a directory of
/// the same name whose own entries are preserved in turn.
pub open spec fn preserved(old: Seq<Node>, new: Seq<Node>) -> bool
    decreases old, 1int,
{
    old.len() <= new.len() && forall|j: int| 0 <= j < old.len() ==> node_preserved(old, j, #[trigger] new[j])
}

pub open spec fn node_preserved(old: Seq<Node>, j: int, n: Node) -> bool
    decreases old, 0int,
{
    if 0 <= j < old.len() {
        match old[j] {
            Node::File { .. } => n == old[j],
            Node::Dir { name, children } => match n {
                Node::Dir { name: new_name, children: new_children } => new_name == name && preserved(
                    children,
                    new_children,
                ),
                _ => false,
            },
        }
    } else {
        true
    }
}

proof fn lemma_listing_empty()
    ensures
        listing(Seq::empty()) == Seq::<EntryView>::empty(),
{
    assert(listing(Seq::empty()) =~= Seq::<EntryView>::empty());
}

proof fn lemma_kept_len(src: Seq<Node>, tgt: Seq<Node>, recursive: bool, n: int)
    requires
        0 <= n,
    ensures
        kept(src, tgt, recursive, n).len() == n,
        forall|j: int| 0 <= j < n ==> #[trigger] kept(src, tgt, recursive, n)[j] == kept_node(src, tgt, recursive, j),
    decreases n,
{
    if n > 0 {
        lemma_kept_len(src, tgt, recursive, n - 1);
        let k = kept(src, tgt, recursive, n);
        assert forall|j: int| 0 <= j < n implies #[trigger] k[j] == kept_node(src, tgt, recursive, j) by {
            if j < n - 1 {
                assert(k[j] == kept(src, tgt, recursive, n - 1)[j]);
            }
        }
    }
}

proof fn lemma_placed_mirror(src: Seq<Node>, n: int)
    requires
        0 <= n <= src.len(),
    ensures
        placed(src, Seq::empty(), true, n) == src.take(n),
    decreases src, 0int, n,
{
    if n > 0 {
        lemma_placed_mirror(src, n - 1);
        lemma_listing_empty();
        assert(step_of(src[n - 1].entry(), listing(Seq::empty()), true) is Copy);
        if let Node::Dir { name, children } = src[n - 1] {
            lemma_mirror(children);
        }
        assert(copy_node(src, n - 1, true) == src[n - 1]);
        assert(src.take(n) =~= src.take(n - 1).push(src[n - 1]));
    } else {
        assert(src.take(0) =~= Seq::<Node>::empty());
    }
}

/// Into an empty target, a recursive run builds an exact copy of the source
/// tree: the same names, kinds and places, and every file with the same bytes.
pub proof fn lemma_mirror(src: Seq<Node>)
    ensures
        sync_dir(src, Seq::empty(), true) == src,
    decreases src, 1int, 0int,
{
    lemma_placed_mirror(src, src.len() as int);
    assert(src.take(src.len() as int) =~= src);
    assert(kept(src, Seq::empty(), true, 0) =~= Seq::<Node>::empty());
    assert(Seq::<Node>::empty() + src =~= src);
}

proof fn lemma_preserved_refl(x: Seq<Node>)
    ensures
        preserved(x, x),
    decreases x, 0int,
{
    assert forall|j: int| 0 <= j < x.len() implies node_preserved(x, j, #[trigger] x[j]) by {
        if let Node::Dir { name, children } = x[j] {
            lemma_preserved_refl(children);
        }
    }
}

/// A run never writes over what the target held: every object of the target
/// stays where it was, each file with its bytes unchanged, whatever the source
/// holds under the same name.
pub proof fn lemma_run_preserves_target(src: Seq<Node>, tgt: Seq<Node>, recursive: bool)
    ensures
        preserved(tgt, sync_dir(src, tgt, recursive)),
    decreases src, 1int, 0int,
{
    let r = sync_dir(src, tgt, recursive);
    lemma_kept_len(src, tgt, recursive, tgt.len() as int);
    assert forall|j: int| 0 <= j < tgt.len() implies node_preserved(tgt, j, #[trigger] r[j]) by {
        assert(r[j] == kept_node(src, tgt, recursive, j));
        lemma_preserved_refl_at(tgt, j);
        if let Some(i) = last_match(listing(src), tgt[j].name(), src.len() as int) {
            if 0 <= i < src.len() && step_of(src[i].entry(), listing(tgt), recursive)
                == (Step::Descend { target: j as usize }) {
                if let (Node::Dir { children: sc, .. }, Node::Dir { name, children: tc }) = (src[i], tgt[j]) {
                    lemma_run_preserves_target(sc, tc, recursive);
                }
            }
        }
    }
}

proof fn lemma_preserved_refl_at(x: Seq<Node>, j: int)
    requires
        0 <= j < x.len(),
    ensures
        node_preserved(x, j, x[j]),
{
    lemma_preserved_refl(x);
}

/// No two entries of a directory share a name, at any depth.
pub open spec fn tree_wf(ns: Seq<Node>) -> bool
    decreases ns,
{
    &&& unique_names(listing(ns))
    &&& forall|j: int| 0 <= j < ns.len() ==> match #[trigger] ns[j] {
        Node::Dir { children, .. } => tree_wf(children),
        _ => true,
    }
}

proof fn lemma_kept_node_entry(src: Seq<Node>, tgt: Seq<Node>, recursive: bool, j: int)
    requires
        0 <= j < tgt.len(),
    ensures
        kept_node(src, tgt, recursive, j).entry() == tgt[j].entry(),
{
}

proof fn lemma_placed_listing(src: Seq<Node>, tgt: Seq<Node>, recursive: bool, n: int)
    requires
        0 <= n <= src.len(),
    ensures
        listing(placed(src, tgt, recursive, n)) == copied(listing(src).take(n), listing(tgt), recursive),
        forall|m: int| 0 <= m < placed(src, tgt, recursive, n).len() ==> exists|i: int|
            0 <= i < n && #[trigger] placed(src, tgt, recursive, n)[m] == copy_node(src, i, recursive)
                && step_of(src[i].entry(), listing(tgt), recursive) is Copy,
    decreases n,
{
    let pl = placed(src, tgt, recursive, n);
    if n == 0 {
        assert(listing(pl) =~= Seq::<EntryView>::empty());
    } else {
        lemma_placed_listing(src, tgt, recursive, n - 1);
        let prev = placed(src, tgt, recursive, n - 1);
        let ls = listing(src).take(n);
        assert(ls.drop_last() =~= listing(src).take(n - 1));
        assert(ls.last() == src[n - 1].entry());
        if step_of(src[n - 1].entry(), listing(tgt), recursive) is Copy {
            assert(copy_node(src, n - 1, recursive).entry() == src[n - 1].entry());
            assert(listing(pl) =~= listing(prev).push(src[n - 1].entry()));
            assert forall|m: int| 0 <= m < pl.len() implies exists|i: int|
                0 <= i < n && #[trigger] pl[m] == copy_node(src, i, recursive)
                    && step_of(src[i].entry(), listing(tgt), recursive) is Copy by {
                if m < prev.len() {
                    assert(pl[m] == prev[m]);
                } else {
                    assert(pl[m] == copy_node(src, n - 1, recursive));
                }
            }
        }
    }
}

proof fn lemma_run_listing(src: Seq<Node>, tgt: Seq<Node>, recursive: bool)
    ensures
        listing(sync_dir(src, tgt, recursive)) == after_pass(listing(src), listing(tgt), recursive),
{
    let k = kept(src, tgt, recursive, tgt.len() as int);
    lemma_kept_len(src, tgt, recursive, tgt.len() as int);
    lemma_placed_listing(src, tgt, recursive, src.len() as int);
    assert(listing(src).take(src.len() as int) =~= listing(src));
    assert forall|j: int| 0 <= j < tgt.len() implies #[trigger] listing(k)[j] == listing(tgt)[j] by {
        lemma_kept_node_entry(src, tgt, recursive, j);
    }
    assert(listing(k) =~= listing(tgt));
    assert(listing(sync_dir(src, tgt, recursive)) =~= listing(k) + listing(
        placed(src, tgt, recursive, src.len() as int),
    ));
}

proof fn lemma_wf_child(ns: Seq<Node>, j: int)
    requires
        tree_wf(ns),
        0 <= j < ns.len(),
    ensures
        ns[j] matches Node::Dir { children, .. } ==> tree_wf(children),
{
}

proof fn lemma_placed_none(src: Seq<Node>, tgt: Seq<Node>, recursive: bool, n: int)
    requires
        0 <= n <= src.len(),
        forall|i: int| 0 <= i < n ==> !(step_of(#[trigger] src[i].entry(), listing(tgt), recursive) is Copy),
    ensures
        placed(src, tgt, recursive, n) == Seq::<Node>::empty(),
    decreases n,
{
    if n > 0 {
        lemma_placed_none(src, tgt, recursive, n - 1);
    }
}

proof fn lemma_empty_wf()
    ensures
        tree_wf(Seq::empty()),
{
    lemma_listing_empty();
}

#[verifier::rlimit(60)]
proof fn lemma_rerun_node(src: Seq<Node>, tgt: Seq<Node>, recursive: bool, j: int)
    requires
        tree_wf(src),
        tree_wf(tgt),
        0 <= j < sync_dir(src, tgt, recursive).len(),
    ensures
        kept_node(src, sync_dir(src, tgt, recursive), recursive, j) == sync_dir(src, tgt, recursive)[j],
    decreases src, 0int, 0int,
{
    let r = sync_dir(src, tgt, recursive);
    let ls = listing(src);
    let lt = listing(tgt);
    let lr = listing(r);
    let k = kept(src, tgt, recursive, tgt.len() as int);
    let pl = placed(src, tgt, recursive, src.len() as int);
    lemma_run_listing(src, tgt, recursive);
    lemma_copied_unique(ls, lt, recursive);
    lemma_kept_len(src, tgt, recursive, tgt.len() as int);
    lemma_placed_listing(src, tgt, recursive, src.len() as int);
    assert(lr[j] == r[j].entry());
    if j < tgt.len() {
        assert(r[j] == k[j]);
        lemma_kept_node_entry(src, tgt, recursive, j);
        let name = tgt[j].name();
        lemma_last_match(ls, name, src.len() as int);
        if let Some(i) = last_match(ls, name, src.len() as int) {
            assert(ls[i] == src[i].entry());
            assert(lt[j] == tgt[j].entry());
            lemma_last_match_unique(lt, j);
            lemma_second_pass_entry(ls, lt, recursive, i);
            assert(step_of(src[i].entry(), lr, recursive) == step_of(src[i].entry(), lt, recursive));
            if step_of(src[i].entry(), lt, recursive) == (Step::Descend { target: j as usize }) {
                if let (Node::Dir { children: sc, .. }, Node::Dir { name: tn, children: tc }) = (src[i], tgt[j]) {
                    lemma_wf_child(src, i);
                    lemma_wf_child(tgt, j);
                    lemma_run_idempotent(sc, tc, recursive);
                }
            }
        }
    } else {
        let m = j - tgt.len();
        assert(r[j] == pl[m]);
        let i = choose|i: int|
            0 <= i < src.len() && #[trigger] pl[m] == copy_node(src, i, recursive)
                && step_of(src[i].entry(), lt, recursive) is Copy;
        assert(copy_node(src, i, recursive).entry() == src[i].entry());
        assert(ls[i] == src[i].entry());
        lemma_last_match_unique(ls, i);
        lemma_last_match_unique(lr, j);
        if let Node::Dir { children: sc, .. } = src[i] {
            if recursive {
                lemma_wf_child(src, i);
                lemma_empty_wf();
                lemma_run_idempotent(sc, Seq::empty(), recursive);
            }
        }
    }
}

/// A source entry whose name the target holds with the other kind is
/// neither copied nor descended into: that target object is left exactly as
/// it was, and the run goes on with every other entry.
pub proof fn lemma_conflict_skipped(src: Seq<Node>, tgt: Seq<Node>, recursive: bool, i: int)
    requires
        tree_wf(src),
        tree_wf(tgt),
        tgt.len() <= usize::MAX,
        0 <= i < src.len(),
        step_of(src[i].entry(), listing(tgt), recursive) is Conflict,
    ensures
        ({
            let j = step_of(src[i].entry(), listing(tgt), recursive)->Conflict_target as int;
            &&& 0 <= j < tgt.len()
            &&& tgt[j].name() == src[i].name()
            &&& tgt[j].kind() != src[i].kind()
            &&& sync_dir(src, tgt, recursive)[j] == tgt[j]
        }),
{
    let ls = listing(src);
    let lt = listing(tgt);
    assert(ls[i] == src[i].entry());
    lemma_last_match(lt, src[i].name(), tgt.len() as int);
    let j = last_match(lt, src[i].name(), tgt.len() as int)->Some_0;
    assert(lt[j] == tgt[j].entry());
    lemma_kept_len(src, tgt, recursive, tgt.len() as int);
    lemma_last_match_unique(ls, i);
    assert(sync_dir(src, tgt, recursive)[j] == kept(src, tgt, recursive, tgt.len() as int)[j]);
}

/// A second run over the same pair finds nothing left to do: it copies
/// nothing, at any depth, and leaves the target exactly as the first run
/// left it.
pub proof fn lemma_run_idempotent(src: Seq<Node>, tgt: Seq<Node>, recursive: bool)
    requires
        tree_wf(src),
        tree_wf(tgt),
    ensures
        placed(src, sync_dir(src, tgt, recursive), recursive, src.len() as int) == Seq::<Node>::empty(),
        sync_dir(src, sync_dir(src, tgt, recursive), recursive) == sync_dir(src, tgt, recursive),
    decreases src, 1int, 0int,
{
    let r = sync_dir(src, tgt, recursive);
    let ls = listing(src);
    let lt = listing(tgt);
    lemma_run_listing(src, tgt, recursive);
    assert forall|i: int| 0 <= i < src.len() implies !(step_of(#[trigger] src[i].entry(), listing(r), recursive) is Copy) by {
        assert(ls[i] == src[i].entry());
        lemma_second_pass_entry(ls, lt, recursive, i);
    }
    lemma_placed_none(src, r, recursive, src.len() as int);
    lemma_kept_len(src, r, recursive, r.len() as int);
    let k2 = kept(src, r, recursive, r.len() as int);
    assert forall|j: int| 0 <= j < r.len() implies #[trigger] k2[j] == r[j] by {
        lemma_rerun_node(src, tgt, recursive, j);
    }
    assert(k2 =~= r);
    assert(k2 + Seq::<Node>::empty() =~= k2);
}

} // verus!
