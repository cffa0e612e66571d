//! The read-only filesystem protocol adapter.
//!
//! Wraps the finished entry collection (never mutated again) and answers
//! the three request shapes of an inode-style serving boundary: resolve a
//! named child under a parent id, fetch attributes by id, and list a
//! directory's children from an offset.  All three are pure reads; their
//! results are pinned to spec-level functions of the collection alone.

use vstd::prelude::*;

use crate::model::{
    entry_children, entry_size, lemma_child_id_valid, EntryModel, KindModel,
};
use crate::parser::{
    entries_view, index_of_id, parse_aoc, spec_parse, Entry, EntryKind, ParseError,
};

verus! {

/// The kind served for an entry: a regular file or a directory.
#[derive(Debug, PartialEq, Eq, Clone, Copy)]
pub enum NodeKind {
    File,
    Directory,
}

/// The generic attribute record served for an entry: its identifier, its
/// kind, and its byte size (0 for a directory).  Permission bits,
/// timestamps, link counts and ownership are fixed placeholders filled in
/// at the serving boundary, not data of the collection.
#[derive(Debug, PartialEq, Eq, Clone, Copy)]
pub struct Attributes {
    pub ino: u64,
    pub kind: NodeKind,
    pub size: u64,
}

/// One row of a directory listing.
#[derive(Debug, PartialEq, Eq)]
pub struct DirEntry {
    pub ino: u64,
    pub name: String,
    pub kind: NodeKind,
}

/// Spec-level picture of one listing row.
pub ghost struct DirEntryModel {
    pub ino: u64,
    pub name: Seq<char>,
    pub kind: NodeKind,
}

impl View for DirEntry {
    type V = DirEntryModel;

    open spec fn view(&self) -> DirEntryModel {
        DirEntryModel { ino: self.ino, name: self.name@, kind: self.kind }
    }
}

/// Why a listing request failed: the id is unknown, or it names a file.
#[derive(Debug, PartialEq, Eq, Clone, Copy)]
pub enum ListError {
    NotFound,
    NotADirectory,
}

/// The kind served for a model entry.
pub open spec fn spec_kind(e: EntryModel) -> NodeKind {
    match e.kind {
        KindModel::Directory { .. } => NodeKind::Directory,
        KindModel::File { .. } => NodeKind::File,
    }
}

/// The attribute record served for a model entry.
pub open spec fn spec_attrs(e: EntryModel) -> Attributes {
    Attributes { ino: e.id, kind: spec_kind(e), size: entry_size(e) }
}

/// The first entry whose recorded parent and name both match, scanning
/// the flat collection in order.
pub open spec fn spec_lookup(es: Seq<EntryModel>, parent: u64, name: Seq<char>) -> Option<
    EntryModel,
>
    decreases es.len(),
{
    if es.len() == 0 {
        None
    } else if es[0].parent_id == parent && es[0].name == name {
        Some(es[0])
    } else {
        spec_lookup(es.skip(1), parent, name)
    }
}

/// A lookup misses exactly when no entry matches both parent and name.
pub proof fn lemma_spec_lookup_none(es: Seq<EntryModel>, parent: u64, name: Seq<char>)
    ensures
        spec_lookup(es, parent, name) is None <==> (forall|j: int|
            0 <= j < es.len() ==> !((#[trigger] es[j]).parent_id == parent && es[j].name
                == name)),
    decreases es.len(),
{
    if es.len() == 0 {
    } else if es[0].parent_id == parent && es[0].name == name {
    } else {
        lemma_spec_lookup_none(es.skip(1), parent, name);
        assert(forall|j: int| 0 <= j < es.skip(1).len() ==> #[trigger] es.skip(1)[j] == es[j + 1]);
        if spec_lookup(es, parent, name) is None {
            assert forall|j: int|
                0 <= j < es.len() implies !((#[trigger] es[j]).parent_id == parent && es[j].name
                == name) by {
                if j >= 1 {
                    assert(es.skip(1)[j - 1] == es[j]);
                }
            };
        } else {
            let j = choose|j: int|
                0 <= j < es.skip(1).len() && (#[trigger] es.skip(1)[j]).parent_id == parent
                    && es.skip(1)[j].name == name;
            assert(es[j + 1].parent_id == parent && es[j + 1].name == name);
        }
    }
}

/// The full listing of a directory entry: each child pair, in order,
/// together with the kind of the entry the child id names.
pub open spec fn spec_listing(es: Seq<EntryModel>, d: EntryModel) -> Seq<DirEntryModel> {
    entry_children(d).map_values(
        |c: (Seq<char>, u64)| DirEntryModel { ino: c.1, name: c.0, kind: spec_kind(es[c.1 - 1]) },
    )
}

/// What a listing request yields: the suffix of the directory's ordered
/// listing from the 0-based offset (empty past the end); NotFound for an
/// id no entry has, NotADirectory for a file's id.
pub open spec fn spec_list(es: Seq<EntryModel>, ino: u64, offset: int) -> Result<
    Seq<DirEntryModel>,
    ListError,
> {
    if !(1 <= ino <= es.len()) {
        Err(ListError::NotFound)
    } else if !(es[ino - 1].kind is Directory) {
        Err(ListError::NotADirectory)
    } else {
        let full = spec_listing(es, es[ino - 1]);
        Ok(
            if offset <= full.len() {
                full.skip(offset)
            } else {
                Seq::empty()
            },
        )
    }
}

/// Law: advancing the resume offset by one drops exactly the first row:
/// if listing at offset k yields rows l, then listing at offset k + 1
/// yields l without its first row, and an empty l stays empty.  Together
/// with the listing being a function of the never-mutated collection,
/// repeated calls walk one stable ordered sequence.
pub proof fn lemma_listing_suffix(es: Seq<EntryModel>, ino: u64, k: int)
    requires
        0 <= k,
        spec_list(es, ino, k) is Ok,
    ensures
        spec_list(es, ino, k + 1) is Ok,
        spec_list(es, ino, k)->Ok_0.len() >= 1 ==> spec_list(es, ino, k + 1)->Ok_0 == spec_list(
            es,
            ino,
            k,
        )->Ok_0.skip(1),
        spec_list(es, ino, k)->Ok_0.len() == 0 ==> spec_list(es, ino, k + 1)->Ok_0 == spec_list(
            es,
            ino,
            k,
        )->Ok_0,
{
    let full = spec_listing(es, es[ino - 1]);
    if k < full.len() {
        assert(full.skip(k).skip(1) =~= full.skip(k + 1));
        if full.skip(k).len() == 0 {
            assert(full.skip(k) =~= full.skip(k + 1));
        }
    } else if k == full.len() {
        assert(full.skip(k) =~= Seq::<DirEntryModel>::empty());
    }
}

/// The attribute record of one entry, as served: the stored size for a
/// file, size 0 for a directory.
fn entry_attrs(e: &Entry) -> (a: Attributes)
    ensures
        a == spec_attrs(e@),
{
    let (kind, size) = match &e.kind {
        EntryKind::Directory { .. } => (NodeKind::Directory, 0u64),
        EntryKind::File { size } => (NodeKind::File, *size),
    };
    Attributes { ino: e.id, kind, size }
}

/// The read-only filesystem over a built entry collection.  The
/// collection is well-formed by construction and never mutated, so every
/// request is answered by a pure scan.
pub struct AoCFS {
    entries: Vec<Entry>,
}

impl View for AoCFS {
    type V = Seq<EntryModel>;

    closed spec fn view(&self) -> Seq<EntryModel> {
        entries_view(self.entries@)
    }
}

impl AoCFS {
    #[verifier::type_invariant]
    spec fn type_inv(&self) -> bool {
        crate::model::wf(self@)
    }

    /// Builds the served collection from a transcript; the first format
    /// violation of the transcript is returned as its error.
    pub fn new(aoc_input: &str) -> (r: Result<AoCFS, ParseError>)
        ensures
            (match spec_parse(aoc_input@) {
                Ok(ms) => (match r {
                    Ok(fs) => fs@ == ms,
                    Err(_) => false,
                }),
                Err(e) => (match r {
                    Ok(_) => false,
                    Err(e2) => e2 == e,
                }),
            }),
    {
        match parse_aoc(aoc_input) {
            Ok(entries) => Ok(AoCFS { entries }),
            Err(e) => Err(e),
        }
    }

    /// Fetches the attribute record for an id: the entry's attributes
    /// when the id was assigned, and nothing — never a failure of the
    /// process — when it was not.
    pub fn getattr(&self, ino: u64) -> (r: Option<Attributes>)
        ensures
            (match r {
                Some(a) => 1 <= ino <= self@.len() && a == spec_attrs(self@[ino - 1]),
                None => !(1 <= ino <= self@.len()),
            }),
    {
        proof {
            use_type_invariant(&*self);
        }
        match index_of_id(&self.entries, ino) {
            Some(i) => {
                proof {
                    assert(self@[i as int] == self.entries@[i as int]@);
                }
                Some(entry_attrs(&self.entries[i]))
            },
            None => {
                proof {
                    if 1 <= ino <= self@.len() {
                        assert(self.entries@[ino - 1]@.id == ino);
                    }
                }
                None
            },
        }
    }

    /// Resolves a named child under a parent id by scanning the flat
    /// collection for the first entry whose recorded parent and name
    /// both match; misses exactly when no entry matches.
    pub fn lookup(&self, parent: u64, name: &str) -> (r: Option<Attributes>)
        ensures
            (match spec_lookup(self@, parent, name@) {
                Some(m) => r == Some(spec_attrs(m)),
                None => r is None,
            }),
            r is None <==> (forall|j: int|
                0 <= j < self@.len() ==> !((#[trigger] self@[j]).parent_id == parent
                    && self@[j].name == name@)),
    {
        let ghost es = self@;
        let mut i: usize = 0;
        proof {
            assert(es.skip(0) =~= es);
        }
        while i < self.entries.len()
            invariant
                es == self@,
                0 <= i <= self.entries@.len(),
                es.len() == self.entries@.len(),
                spec_lookup(es, parent, name@) == spec_lookup(
                    es.skip(i as int),
                    parent,
                    name@,
                ),
            decreases self.entries@.len() - i,
        {
            proof {
                assert(es.skip(i as int)[0] == es[i as int]);
                assert(es.skip(i as int).skip(1) =~= es.skip(i + 1));
                assert(es[i as int] == self.entries@[i as int]@);
            }
            let e = &self.entries[i];
            if e.parent_id == parent && crate::text::str_eq(e.name.as_str(), name) {
                proof {
                    lemma_spec_lookup_none(es, parent, name@);
                }
                return Some(entry_attrs(e));
            }
            i += 1;
        }
        proof {
            assert(es.skip(es.len() as int) =~= Seq::<EntryModel>::empty());
            lemma_spec_lookup_none(es, parent, name@);
        }
        None
    }

    /// Lists a directory's children starting at a 0-based offset into
    /// the ordered child list, each row carrying the child's name, id
    /// and kind.  Fails with NotFound when no entry has the id and with
    /// NotADirectory — never an empty listing — when the id names a
    /// file.  The collection never changes, so equal requests always
    /// yield equal rows.
    pub fn readdir(&self, ino: u64, offset: usize) -> (r: Result<Vec<DirEntry>, ListError>)
        ensures
            (match spec_list(self@, ino, offset as int) {
                Ok(l) => (match r {
                    Ok(v) => v@.map_values(|d: DirEntry| d@) == l,
                    Err(_) => false,
                }),
                Err(e) => (match r {
                    Ok(_) => false,
                    Err(e2) => e2 == e,
                }),
            }),
    {
        proof {
            use_type_invariant(&*self);
        }
        let i = match index_of_id(&self.entries, ino) {
            Some(i) => i,
            None => {
                proof {
                    if 1 <= ino <= self@.len() {
                        assert(self.entries@[ino - 1]@.id == ino);
                    }
                }
                return Err(ListError::NotFound);
            },
        };
        proof {
            assert(self@[i as int] == self.entries@[i as int]@);
        }
        match &self.entries[i].kind {
            EntryKind::File { .. } => Err(ListError::NotADirectory),
            EntryKind::Directory { children } => {
                let ghost es = self@;
                let ghost d = self@[i as int];
                let ghost full = spec_listing(es, d);
                proof {
                    assert(entry_children(d) == children@.map_values(
                        |c: (String, u64)| (c.0@, c.1),
                    ));
                    assert(full.len() == children@.len());
                }
                let mut v: Vec<DirEntry> = Vec::new();
                if offset >= children.len() {
                    proof {
                        assert(v@.map_values(|de: DirEntry| de@) =~= Seq::<
                            DirEntryModel,
                        >::empty());
                        if offset as int == full.len() {
                            assert(full.skip(offset as int) =~= Seq::<DirEntryModel>::empty());
                        }
                    }
                    return Ok(v);
                }
                let mut j: usize = offset;
                proof {
                    assert(full.subrange(offset as int, offset as int) =~= Seq::<
                        DirEntryModel,
                    >::empty());
                }
                while j < children.len()
                    invariant
                        es == self@,
                        crate::model::wf(es),
                        0 <= i < self.entries@.len(),
                        es.len() == self.entries@.len(),
                        d == es[i as int],
                        d.kind is Directory,
                        entry_children(d) == children@.map_values(
                            |c: (String, u64)| (c.0@, c.1),
                        ),
                        full == spec_listing(es, d),
                        full.len() == children@.len(),
                        offset <= j <= children@.len(),
                        v@.map_values(|de: DirEntry| de@) == full.subrange(
                            offset as int,
                            j as int,
                        ),
                    decreases children@.len() - j,
                {
                    let ghost prev = v@.map_values(|de: DirEntry| de@);
                    let cid = children[j].1;
                    proof {
                        lemma_child_id_valid(es, i as int, j as int);
                        assert(entry_children(d)[j as int] == (children@[j as int].0@, cid));
                        assert(es[cid - 1].id == cid);
                        assert(self.entries@[cid - 1]@.id == cid);
                    }
                    let kind = match index_of_id(&self.entries, cid) {
                        Some(ci) => {
                            proof {
                                assert(self.entries@[ci as int]@.id == cid);
                                assert(self@[ci as int].id == cid);
                                assert(ci as int == cid - 1);
                                assert(self@[ci as int] == self.entries@[ci as int]@);
                            }
                            match &self.entries[ci].kind {
                                EntryKind::Directory { .. } => NodeKind::Directory,
                                EntryKind::File { .. } => NodeKind::File,
                            }
                        },
                        None => {
                            proof {
                                assert(false);
                            }
                            NodeKind::File
                        },
                    };
                    let row = DirEntry { ino: cid, name: children[j].0.clone(), kind };
                    proof {
                        assert(row@ == full[j as int]);
                    }
                    v.push(row);
                    proof {
                        assert(v@.map_values(|de: DirEntry| de@) =~= prev.push(row@));
                        assert(prev.push(row@) =~= full.subrange(offset as int, j + 1));
                    }
                    j += 1;
                }
                proof {
                    assert(full.subrange(offset as int, full.len() as int) =~= full.skip(
                        offset as int,
                    ));
                }
                Ok(v)
            },
        }
    }
}

} // verus!

