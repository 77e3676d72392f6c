use vstd::prelude::*;
use crate::compare::{last_match, lemma_last_match, step_of, Step};
use crate::entry::{EntryKind, EntryView};

verus! {

/// The source entries that a compare pass hands to the copy stage, in order.
pub open spec fn copied(src: Seq<EntryView>, tgt: Seq<EntryView>, recursive: bool) -> Seq<EntryView>
    decreases src.len(),
{
    if src.len() == 0 {
        Seq::empty()
    } else {
        let rest = copied(src.drop_last(), tgt, recursive);
        if step_of(src.last(), tgt, recursive) is Copy {
            rest.push(src.last())
        } else {
            rest
        }
    }
}

/// The target listing once every copy of a pass has been made: the entries
/// that were there, followed by the ones copied in.
pub open spec fn after_pass(src: Seq<EntryView>, tgt: Seq<EntryView>, recursive: bool) -> Seq<EntryView> {
    tgt + copied(src, tgt, recursive)
}

/// No two entries of a listing share a name, as in any real directory.
pub open spec fn unique_names(s: Seq<EntryView>) -> bool {
    forall|i: int, j: int| 0 <= i < j < s.len() ==> s[i].name != s[j].name
}

proof fn lemma_last_match_prefix(a: Seq<EntryView>, b: Seq<EntryView>, name: Seq<u8>, n: int)
    requires
        0 <= n <= a.len(),
    ensures
        last_match(a + b, name, n) == last_match(a, name, n),
    decreases n,
{
    if n > 0 {
        assert((a + b)[n - 1] == a[n - 1]);
        lemma_last_match_prefix(a, b, name, n - 1);
    }
}

proof fn lemma_last_match_append(a: Seq<EntryView>, b: Seq<EntryView>, name: Seq<u8>, n: int)
    requires
        0 <= n <= b.len(),
    ensures
        last_match(a + b, name, a.len() + n) == match last_match(b, name, n) {
            Some(j) => Some(a.len() + j),
            None => last_match(a, name, a.len() as int),
        },
    decreases n,
{
    if n == 0 {
        lemma_last_match_prefix(a, b, name, a.len() as int);
    } else {
        assert((a + b)[a.len() + n - 1] == b[n - 1]);
        lemma_last_match_append(a, b, name, n - 1);
    }
}

pub(crate) proof fn lemma_copied_members(src: Seq<EntryView>, tgt: Seq<EntryView>, recursive: bool)
    ensures
        forall|m: int|
            0 <= m < copied(src, tgt, recursive).len() ==> exists|k: int|
                0 <= k < src.len() && #[trigger] copied(src, tgt, recursive)[m] == src[k]
                    && step_of(src[k], tgt, recursive) is Copy,
        forall|k: int|
            0 <= k < src.len() && (step_of(#[trigger] src[k], tgt, recursive) is Copy) ==> exists|m: int|
                0 <= m < copied(src, tgt, recursive).len() && copied(src, tgt, recursive)[m] == src[k],
    decreases src.len(),
{
    if src.len() > 0 {
        let p = src.drop_last();
        lemma_copied_members(p, tgt, recursive);
        let c = copied(src, tgt, recursive);
        let cp = copied(p, tgt, recursive);
        assert forall|m: int| 0 <= m < c.len() implies exists|k: int|
            0 <= k < src.len() && #[trigger] c[m] == src[k] && step_of(src[k], tgt, recursive) is Copy by {
            if m < cp.len() {
                assert(c[m] == cp[m]);
                let k = choose|k: int| 0 <= k < p.len() && cp[m] == p[k] && step_of(p[k], tgt, recursive) is Copy;
                assert(src[k] == p[k]);
            } else {
                assert(c[m] == src[src.len() - 1]);
            }
        }
        assert forall|k: int| 0 <= k < src.len() && (step_of(#[trigger] src[k], tgt, recursive) is Copy) implies exists|m: int|
            0 <= m < c.len() && c[m] == src[k] by {
            if k < p.len() {
                assert(src[k] == p[k]);
                let m = choose|m: int| 0 <= m < cp.len() && cp[m] == p[k];
                assert(c[m] == cp[m]);
            } else {
                assert(c[cp.len() as int] == src[k]);
            }
        }
    }
}

pub(crate) proof fn lemma_last_match_unique(s: Seq<EntryView>, j: int)
    requires
        unique_names(s),
        0 <= j < s.len(),
    ensures
        last_match(s, s[j].name, s.len() as int) == Some(j),
{
    lemma_last_match(s, s[j].name, s.len() as int);
    let k = last_match(s, s[j].name, s.len() as int)->Some_0;
    if k < j {
        assert(s[k].name != s[j].name);
    } else if k > j {
        assert(s[j].name != s[k].name);
    }
}

pub(crate) proof fn lemma_copied_unique(src: Seq<EntryView>, tgt: Seq<EntryView>, recursive: bool)
    requires
        unique_names(src),
        unique_names(tgt),
    ensures
        unique_names(after_pass(src, tgt, recursive)),
    decreases src.len(),
{
    if src.len() > 0 {
        let p = src.drop_last();
        lemma_copied_unique(p, tgt, recursive);
        lemma_copied_members(p, tgt, recursive);
        lemma_last_match(tgt, src.last().name, tgt.len() as int);
        let cp = copied(p, tgt, recursive);
        let a = after_pass(src, tgt, recursive);
        if step_of(src.last(), tgt, recursive) is Copy {
            assert forall|m: int| 0 <= m < cp.len() implies #[trigger] cp[m].name != src.last().name by {
                let k = choose|k: int| 0 <= k < p.len() && cp[m] == p[k] && step_of(p[k], tgt, recursive) is Copy;
                assert(p[k] == src[k]);
            }
            let ap = after_pass(p, tgt, recursive);
            assert(a =~= ap.push(src.last()));
            assert forall|i: int, j: int| 0 <= i < j < a.len() implies a[i].name != a[j].name by {
                if j == a.len() - 1 {
                    if i >= tgt.len() {
                        assert(a[i] == cp[i - tgt.len()]);
                    }
                } else {
                    assert(a[i] == ap[i] && a[j] == ap[j]);
                }
            }
        } else {
            assert(a =~= after_pass(p, tgt, recursive));
        }
    } else {
        assert(after_pass(src, tgt, recursive) =~= tgt);
    }
}

/// A pass hands an entry to the copy stage exactly when no object of its name
/// is in the target, so nothing that is there is ever written over; a pass
/// that descends does so into a directory of the same name that is kept as it is.
pub proof fn lemma_no_overwrite(e: EntryView, tgt: Seq<EntryView>, recursive: bool)
    requires
        tgt.len() <= usize::MAX,
    ensures
        (step_of(e, tgt, recursive) is Copy) == (forall|k: int| 0 <= k < tgt.len() ==> tgt[k].name != e.name),
        step_of(e, tgt, recursive) matches Step::Descend { target } ==> {
            &&& 0 <= target < tgt.len()
            &&& tgt[target as int].name == e.name
            &&& tgt[target as int].kind == EntryKind::Dir
        },
{
    lemma_last_match(tgt, e.name, tgt.len() as int);
}

/// Into an empty target a pass copies every source entry, counting each
/// directory for a pass of its own when recursing, so the target ends up
/// listing exactly what the source lists.
pub proof fn lemma_empty_target_mirrors(src: Seq<EntryView>, recursive: bool)
    ensures
        forall|i: int| 0 <= i < src.len() ==> step_of(#[trigger] src[i], Seq::empty(), recursive)
            == (Step::Copy { track: recursive && src[i].kind == EntryKind::Dir }),
        after_pass(src, Seq::empty(), recursive) == src,
    decreases src.len(),
{
    if src.len() > 0 {
        lemma_empty_target_mirrors(src.drop_last(), recursive);
        assert(Seq::<EntryView>::empty() + src.drop_last() =~= src.drop_last());
        assert(src.drop_last().push(src.last()) =~= src);
    }
    assert(Seq::<EntryView>::empty() + copied(src, Seq::empty(), recursive) =~= copied(src, Seq::empty(), recursive));
}

#[verifier::rlimit(40)]
pub(crate) proof fn lemma_second_pass_entry(src: Seq<EntryView>, tgt: Seq<EntryView>, recursive: bool, i: int)
    requires
        unique_names(src),
        0 <= i < src.len(),
    ensures
        ({
            let s = step_of(src[i], after_pass(src, tgt, recursive), recursive);
            &&& !(s is Copy)
            &&& !(step_of(src[i], tgt, recursive) is Copy) ==> s == step_of(src[i], tgt, recursive)
            &&& (step_of(src[i], tgt, recursive) is Copy) ==> (s is Skip || s is Descend)
        }),
{
    let c = copied(src, tgt, recursive);
    let a = after_pass(src, tgt, recursive);
    let e = src[i];
    lemma_copied_members(src, tgt, recursive);
    lemma_last_match_append(tgt, c, e.name, c.len() as int);
    lemma_last_match(c, e.name, c.len() as int);
    lemma_last_match(tgt, e.name, tgt.len() as int);
    if step_of(e, tgt, recursive) is Copy {
        let m = choose|m: int| 0 <= m < c.len() && c[m] == src[i];
        assert(c[m].name == e.name);
        let j = last_match(c, e.name, c.len() as int)->Some_0;
        let k = choose|k: int|
            0 <= k < src.len() && c[j] == src[k] && step_of(src[k], tgt, recursive) is Copy;
        if k < i {
            assert(src[k].name != src[i].name);
        } else if k > i {
            assert(src[i].name != src[k].name);
        }
        assert(a[tgt.len() + j] == c[j]);
    } else {
        assert forall|m: int| 0 <= m < c.len() implies c[m].name != e.name by {
            let k = choose|k: int|
                0 <= k < src.len() && #[trigger] c[m] == src[k] && step_of(src[k], tgt, recursive) is Copy;
            if k < i {
                assert(src[k].name != src[i].name);
            } else if k > i {
                assert(src[i].name != src[k].name);
            }
        }
        assert(last_match(c, e.name, c.len() as int) is None);
        if let Some(j) = last_match(tgt, e.name, tgt.len() as int) {
            assert(a[j] == tgt[j]);
        }
    }
}

/// A second pass over the same pair, once the first pass's copies are made,
/// copies nothing: an entry the first pass copied is now found with its own
/// kind and skipped (or descended into), and any other entry is decided as
/// before, so the only conflicts are those the first pass reported.
pub proof fn lemma_second_pass_copies_nothing(src: Seq<EntryView>, tgt: Seq<EntryView>, recursive: bool)
    requires
        unique_names(src),
    ensures
        forall|i: int| 0 <= i < src.len() ==> !(step_of(#[trigger] src[i], after_pass(src, tgt, recursive), recursive) is Copy),
        forall|i: int| 0 <= i < src.len() && !(step_of(#[trigger] src[i], tgt, recursive) is Copy) ==>
            step_of(src[i], after_pass(src, tgt, recursive), recursive) == step_of(src[i], tgt, recursive),
        forall|i: int| 0 <= i < src.len() && (step_of(#[trigger] src[i], tgt, recursive) is Copy) ==> {
            let s = step_of(src[i], after_pass(src, tgt, recursive), recursive);
            s is Skip || s is Descend
        },
{
    assert forall|i: int| 0 <= i < src.len() implies {
        let s = step_of(#[trigger] src[i], after_pass(src, tgt, recursive), recursive);
        &&& !(s is Copy)
        &&& !(step_of(src[i], tgt, recursive) is Copy) ==> s == step_of(src[i], tgt, recursive)
        &&& (step_of(src[i], tgt, recursive) is Copy) ==> (s is Skip || s is Descend)
    } by {
        lemma_second_pass_entry(src, tgt, recursive, i);
    }
}

/// A conflict does not stop the pass: each entry's decision depends on that
/// entry and the target alone, so two source listings that differ in one
/// entry are decided alike on every other.
pub proof fn lemma_conflict_is_local(s1: Seq<EntryView>, s2: Seq<EntryView>, c: int, tgt: Seq<EntryView>, recursive: bool)
    requires
        s1.len() == s2.len(),
        forall|i: int| 0 <= i < s1.len() && i != c ==> s1[i] == s2[i],
    ensures
        forall|i: int| 0 <= i < s1.len() && i != c ==> #[trigger] step_of(s1[i], tgt, recursive) == step_of(s2[i], tgt, recursive),
{
}

} // verus!
