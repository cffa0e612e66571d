//! Mathematical model of the entry tree.
//!
//! The builder produces a flat sequence of entries; this module gives the
//! spec-level picture of such a sequence and the well-formedness invariant
//! that every built collection satisfies: sequential ids starting at the
//! root's id 1, parent links mirrored in the parents' child lists, and a
//! leading `..` child in every non-root directory.

use vstd::prelude::*;

verus! {

/// Spec-level picture of one entry's kind: a file with a byte size, or a
/// directory with an ordered list of (name, id) children.
pub ghost enum KindModel {
    File { size: u64 },
    Directory { children: Seq<(Seq<char>, u64)> },
}

/// Spec-level picture of one entry of the tree.
pub ghost struct EntryModel {
    pub id: u64,
    pub parent_id: u64,
    pub name: Seq<char>,
    pub kind: KindModel,
}

/// The ordered child list of an entry; empty for a file.
pub open spec fn entry_children(e: EntryModel) -> Seq<(Seq<char>, u64)> {
    match e.kind {
        KindModel::Directory { children } => children,
        KindModel::File { .. } => Seq::empty(),
    }
}

/// The byte size served for an entry: the stored size for a file, 0 for a
/// directory.
pub open spec fn entry_size(e: EntryModel) -> u64 {
    match e.kind {
        KindModel::File { size } => size,
        KindModel::Directory { .. } => 0,
    }
}

/// The name of the parent link that heads every non-root directory.
pub open spec fn dotdot() -> Seq<char> {
    seq!['.', '.']
}

/// Whether a child list holds the pair (name, id).
pub open spec fn has_child(cs: Seq<(Seq<char>, u64)>, name: Seq<char>, id: u64) -> bool {
    exists|j: int| 0 <= j < cs.len() && cs[j] == (name, id)
}

/// An ordinary (non-`..`) child pair points at an existing non-root entry
/// whose recorded parent and name agree with the pair.
pub open spec fn child_ok(es: Seq<EntryModel>, dir_id: u64, c: (Seq<char>, u64)) -> bool {
    &&& 2 <= c.1 <= es.len()
    &&& es[c.1 - 1].parent_id == dir_id
    &&& es[c.1 - 1].name == c.0
}

/// The entry at index i has a parent that precedes it, is a directory, and
/// lists (name, id) of this entry among its children.
pub open spec fn parent_ok(es: Seq<EntryModel>, i: int) -> bool {
    let p = es[i].parent_id as int;
    &&& 1 <= p <= i
    &&& es[p - 1].kind is Directory
    &&& has_child(entry_children(es[p - 1]), es[i].name, es[i].id)
}

/// If the entry at index i is a directory, its child list is consistent:
/// a non-root directory starts with ("..", parent_id), and every other
/// child pair points back at its entry.
pub open spec fn children_ok(es: Seq<EntryModel>, i: int) -> bool {
    match es[i].kind {
        KindModel::Directory { children } => {
            &&& (i >= 1 ==> children.len() >= 1 && children[0] == (dotdot(), es[i].parent_id))
            &&& forall|j: int|
                (if i == 0 { 0int } else { 1int }) <= j < children.len() ==> child_ok(
                    es,
                    es[i].id,
                    #[trigger] children[j],
                )
        },
        KindModel::File { .. } => true,
    }
}

/// Well-formedness of a built collection: ids are assigned sequentially
/// starting at 1, index i holds id i + 1, the root (id 1) is a directory,
/// its own parent and nameless, and parent links and child lists mirror
/// each other.
pub open spec fn wf(es: Seq<EntryModel>) -> bool {
    &&& 1 <= es.len() <= u64::MAX
    &&& forall|i: int| 0 <= i < es.len() ==> (#[trigger] es[i]).id == i + 1
    &&& es[0].parent_id == 1
    &&& es[0].name == Seq::<char>::empty()
    &&& es[0].kind is Directory
    &&& forall|i: int| 1 <= i < es.len() ==> #[trigger] parent_ok(es, i)
    &&& forall|i: int| 0 <= i < es.len() ==> #[trigger] children_ok(es, i)
}

/// Law: in a well-formed collection no two distinct entries share an id,
/// and the root always has id 1.
pub proof fn lemma_id_uniqueness(es: Seq<EntryModel>)
    requires
        wf(es),
    ensures
        forall|i: int, j: int|
            0 <= i < es.len() && 0 <= j < es.len() && i != j ==> (#[trigger] es[i]).id != (
            #[trigger] es[j]).id,
        es[0].id == 1,
{
}

/// Law: for every non-root entry, the entry whose id equals the recorded
/// parent_id exists, is a directory, and lists (name, id) of the entry
/// among its children.
pub proof fn lemma_parent_linkage(es: Seq<EntryModel>, i: int)
    requires
        wf(es),
        1 <= i < es.len(),
    ensures
        1 <= es[i].parent_id <= es.len(),
        es[es[i].parent_id - 1].id == es[i].parent_id,
        es[es[i].parent_id - 1].kind is Directory,
        has_child(entry_children(es[es[i].parent_id - 1]), es[i].name, es[i].id),
{
    assert(parent_ok(es, i));
}

/// Law: every non-root directory's first child is ("..", parent_id).
pub proof fn lemma_dotdot_first(es: Seq<EntryModel>, i: int)
    requires
        wf(es),
        1 <= i < es.len(),
        es[i].kind is Directory,
    ensures
        entry_children(es[i]).len() >= 1,
        entry_children(es[i])[0] == (dotdot(), es[i].parent_id),
{
    assert(children_ok(es, i));
}

/// Every child pair of a well-formed directory carries an id of an existing
/// entry (`..` resolves to the parent, other pairs to their own entries).
pub proof fn lemma_child_id_valid(es: Seq<EntryModel>, i: int, j: int)
    requires
        wf(es),
        0 <= i < es.len(),
        es[i].kind is Directory,
        0 <= j < entry_children(es[i]).len(),
    ensures
        1 <= entry_children(es[i])[j].1 <= es.len(),
{
    assert(children_ok(es, i));
    if i >= 1 && j == 0 {
        assert(parent_ok(es, i));
    } else {
        assert(child_ok(es, es[i].id, entry_children(es[i])[j]));
    }
}

/// Appending an entry keeps the collection well-formed: the new entry gets
/// the next id, its (name, id) pair is appended to the children of the
/// directory at index k, and the new entry is either a file or a directory
/// seeded with a single ("..", parent id) child.
pub proof fn lemma_append_child_preserves_wf(
    es: Seq<EntryModel>,
    k: int,
    name: Seq<char>,
    newkind: KindModel,
)
    requires
        wf(es),
        0 <= k < es.len(),
        es[k].kind is Directory,
        es.len() + 1 <= u64::MAX,
        newkind is File || newkind == (KindModel::Directory {
            children: seq![(dotdot(), es[k].id)],
        }),
    ensures
        ({
            let id = (es.len() + 1) as u64;
            let d = es[k];
            let d2 = EntryModel {
                id: d.id,
                parent_id: d.parent_id,
                name: d.name,
                kind: KindModel::Directory { children: entry_children(d).push((name, id)) },
            };
            let fresh = EntryModel { id, parent_id: d.id, name, kind: newkind };
            wf(es.update(k, d2).push(fresh))
        }),
{
    let n = es.len() as int;
    let id = (es.len() + 1) as u64;
    let d = es[k];
    let cs = entry_children(d);
    let cs2 = cs.push((name, id));
    let d2 = EntryModel {
        id: d.id,
        parent_id: d.parent_id,
        name: d.name,
        kind: KindModel::Directory { children: cs2 },
    };
    let fresh = EntryModel { id, parent_id: d.id, name, kind: newkind };
    let es2 = es.update(k, d2).push(fresh);

    assert(es2.len() == n + 1);
    assert(es2[k] == d2);
    assert(es2[n] == fresh);
    assert(entry_children(d2) == cs2);
    assert(forall|i: int| 0 <= i < n && i != k ==> es2[i] == es[i]);
    assert(forall|i: int|
        0 <= i < n ==> (#[trigger] es2[i]).id == es[i].id && es2[i].parent_id == es[i].parent_id
            && es2[i].name == es[i].name);
    assert(d.id == k + 1);

    assert forall|i: int| 0 <= i < es2.len() implies (#[trigger] es2[i]).id == i + 1 by {
        if i < n {
            assert(es[i].id == i + 1);
        }
    };

    assert forall|i: int| 1 <= i < es2.len() implies #[trigger] parent_ok(es2, i) by {
        if i < n {
            assert(parent_ok(es, i));
            let p = es[i].parent_id as int;
            if p - 1 == k {
                let w = choose|j: int|
                    0 <= j < cs.len() && cs[j] == (es[i].name, es[i].id);
                assert(cs2[w] == (es2[i].name, es2[i].id));
                assert(has_child(entry_children(es2[p - 1]), es2[i].name, es2[i].id));
            } else {
                assert(es2[p - 1] == es[p - 1]);
                let pcs = entry_children(es[p - 1]);
                let w = choose|j: int|
                    0 <= j < pcs.len() && pcs[j] == (es[i].name, es[i].id);
                assert(entry_children(es2[p - 1])[w] == (es2[i].name, es2[i].id));
                assert(has_child(entry_children(es2[p - 1]), es2[i].name, es2[i].id));
            }
        } else {
            assert(es2[i] == fresh);
            assert(cs2[cs.len() as int] == (name, id));
            assert(has_child(entry_children(es2[k]), fresh.name, fresh.id));
        }
    };

    assert forall|i: int| 0 <= i < es2.len() implies #[trigger] children_ok(es2, i) by {
        if i == n {
            if !(newkind is File) {
                let ncs = seq![(dotdot(), d.id)];
                assert(entry_children(fresh) == ncs);
                assert(ncs[0] == (dotdot(), fresh.parent_id));
                assert(forall|j: int| 1 <= j < ncs.len() ==> child_ok(es2, fresh.id, #[trigger] ncs[j]));
            }
        } else if i == k {
            assert(children_ok(es, k));
            let lo: int = if k == 0 { 0 } else { 1 };
            assert forall|j: int| lo <= j < cs2.len() implies child_ok(
                es2,
                es2[k].id,
                #[trigger] cs2[j],
            ) by {
                if j < cs.len() {
                    assert(cs2[j] == cs[j]);
                    assert(child_ok(es, es[k].id, cs[j]));
                    let c = cs[j];
                    assert(es2[c.1 - 1].parent_id == es[c.1 - 1].parent_id);
                    assert(es2[c.1 - 1].name == es[c.1 - 1].name);
                } else {
                    assert(cs2[j] == (name, id));
                    assert(es2[id - 1] == fresh);
                }
            };
            if k >= 1 {
                assert(cs2[0] == cs[0]);
            }
        } else {
            assert(children_ok(es, i));
            assert(es2[i] == es[i]);
            match es[i].kind {
                KindModel::Directory { children: csi } => {
                    let lo: int = if i == 0 { 0 } else { 1 };
                    assert forall|j: int| lo <= j < csi.len() implies child_ok(
                        es2,
                        es2[i].id,
                        #[trigger] csi[j],
                    ) by {
                        assert(child_ok(es, es[i].id, csi[j]));
                        let c = csi[j];
                        assert(es2[c.1 - 1].parent_id == es[c.1 - 1].parent_id);
                        assert(es2[c.1 - 1].name == es[c.1 - 1].name);
                    };
                },
                KindModel::File { .. } => {},
            }
        }
    };
}

} // verus!
