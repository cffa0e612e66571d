//! The transcript-to-tree builder.
//!
//! A transcript of `cd` / `ls` commands with their output is consumed line
//! by line; the builder keeps a current-directory cursor and a
//! monotonically increasing id counter, and produces the flat, well-formed
//! entry collection that the adapter then serves.  Every operation is
//! specified by a model-level function, and the whole parse by
//! [`spec_parse`].

use vstd::prelude::*;

use crate::model::{
    dotdot, entry_children, wf, EntryModel, KindModel,
    lemma_append_child_preserves_wf, lemma_child_id_valid,
};
use crate::text::{
    parse_size, spec_lines, spec_parse_size, spec_split, split_lines, split_str, str_eq,
};

verus! {

/// The kind of an entry: a plain file with its byte size, or a directory
/// with its ordered list of (name, id) children.
#[derive(Debug, PartialEq, Eq)]
pub enum EntryKind {
    File { size: u64 },
    Directory { children: Vec<(String, u64)> },
}

/// One entry of the built tree.
#[derive(Debug, PartialEq, Eq)]
pub struct Entry {
    pub id: u64,
    pub parent_id: u64,
    pub name: String,
    pub kind: EntryKind,
}

impl View for EntryKind {
    type V = KindModel;

    open spec fn view(&self) -> KindModel {
        match self {
            EntryKind::File { size } => KindModel::File { size: *size },
            EntryKind::Directory { children } => KindModel::Directory {
                children: children@.map_values(|c: (String, u64)| (c.0@, c.1)),
            },
        }
    }
}

impl View for Entry {
    type V = EntryModel;

    open spec fn view(&self) -> EntryModel {
        EntryModel {
            id: self.id,
            parent_id: self.parent_id,
            name: self.name@,
            kind: self.kind@,
        }
    }
}

/// The model of a whole collection.
pub open spec fn entries_view(es: Seq<Entry>) -> Seq<EntryModel> {
    es.map_values(|e: Entry| e@)
}

/// A fatal transcript-format violation found during the build.
#[derive(Debug, PartialEq, Eq, Clone, Copy)]
pub enum ParseError {
    /// A command line ended before a token the grammar requires.
    MissingToken,
    /// A command other than cd or ls.
    UnknownCommand,
    /// cd named a child absent from the current directory.
    NoSuchChild,
    /// The current entry is a file where a directory was required.
    NotADirectory,
    /// A listing line whose size field is not an unsigned decimal integer.
    BadSize,
    /// A line outside any listing that is not a command.
    StrayLine,
    /// The id counter would no longer fit in 64 bits.
    TooManyEntries,
}

/// Builder state: the entries so far and the current-directory cursor.
pub ghost struct ParserModel {
    pub entries: Seq<EntryModel>,
    pub cur: u64,
}

/// Parsing state: builder state plus the inside-a-listing flag.
pub ghost struct LineState {
    pub ps: ParserModel,
    pub listing: bool,
}

pub open spec fn tok_dollar() -> Seq<char> {
    seq!['$']
}

pub open spec fn tok_cd() -> Seq<char> {
    seq!['c', 'd']
}

pub open spec fn tok_ls() -> Seq<char> {
    seq!['l', 's']
}

pub open spec fn tok_dir() -> Seq<char> {
    seq!['d', 'i', 'r']
}

pub open spec fn tok_slash() -> Seq<char> {
    seq!['/']
}

/// The id of the first child with the given name, if any.
pub open spec fn find_child(cs: Seq<(Seq<char>, u64)>, name: Seq<char>) -> Option<u64>
    decreases cs.len(),
{
    if cs.len() == 0 {
        None
    } else if cs[0].0 == name {
        Some(cs[0].1)
    } else {
        find_child(cs.skip(1), name)
    }
}

/// A found child id comes from some position of the child list.
pub proof fn lemma_find_child_some(cs: Seq<(Seq<char>, u64)>, name: Seq<char>, id: u64)
    requires
        find_child(cs, name) == Some(id),
    ensures
        exists|j: int| 0 <= j < cs.len() && (#[trigger] cs[j]).1 == id,
    decreases cs.len(),
{
    if cs.len() == 0 {
    } else if cs[0].0 == name {
        assert(cs[0].1 == id);
    } else {
        lemma_find_child_some(cs.skip(1), name, id);
        let j = choose|j: int| 0 <= j < cs.skip(1).len() && (#[trigger] cs.skip(1)[j]).1 == id;
        assert(cs[j + 1].1 == id);
    }
}

/// What change-directory does: "/" resets the cursor to the root
/// unconditionally; any other name is looked up in the current
/// directory's child list and the cursor moves to the matched id.  The
/// current entry must be a directory and the name present, else the
/// build fails.
pub open spec fn model_change_directory(st: ParserModel, name: Seq<char>) -> Result<
    ParserModel,
    ParseError,
> {
    if name == tok_slash() {
        Ok(ParserModel { entries: st.entries, cur: 1 })
    } else if !(st.entries[st.cur - 1].kind is Directory) {
        Err(ParseError::NotADirectory)
    } else {
        match find_child(entry_children(st.entries[st.cur - 1]), name) {
            Some(id) => Ok(ParserModel { entries: st.entries, cur: id }),
            None => Err(ParseError::NoSuchChild),
        }
    }
}

/// What add-file does: allocate the next id, append (name, id) to the
/// current directory's children, and append the file entry.  The current
/// entry must be a directory; the id counter must stay representable.
pub open spec fn model_add_file(st: ParserModel, name: Seq<char>, size: u64) -> Result<
    ParserModel,
    ParseError,
> {
    if st.entries.len() + 2 > u64::MAX {
        Err(ParseError::TooManyEntries)
    } else if !(st.entries[st.cur - 1].kind is Directory) {
        Err(ParseError::NotADirectory)
    } else {
        let id = (st.entries.len() + 1) as u64;
        let k = st.cur - 1;
        let d = st.entries[k];
        let d2 = EntryModel {
            id: d.id,
            parent_id: d.parent_id,
            name: d.name,
            kind: KindModel::Directory { children: entry_children(d).push((name, id)) },
        };
        let fresh = EntryModel {
            id,
            parent_id: st.cur,
            name,
            kind: KindModel::File { size },
        };
        Ok(ParserModel { entries: st.entries.update(k, d2).push(fresh), cur: st.cur })
    }
}

/// What add-directory does: as add-file, except that the new entry is a
/// directory whose child list is pre-seeded with ("..", current dir).
pub open spec fn model_add_directory(st: ParserModel, name: Seq<char>) -> Result<
    ParserModel,
    ParseError,
> {
    if st.entries.len() + 2 > u64::MAX {
        Err(ParseError::TooManyEntries)
    } else if !(st.entries[st.cur - 1].kind is Directory) {
        Err(ParseError::NotADirectory)
    } else {
        let id = (st.entries.len() + 1) as u64;
        let k = st.cur - 1;
        let d = st.entries[k];
        let d2 = EntryModel {
            id: d.id,
            parent_id: d.parent_id,
            name: d.name,
            kind: KindModel::Directory { children: entry_children(d).push((name, id)) },
        };
        let fresh = EntryModel {
            id,
            parent_id: st.cur,
            name,
            kind: KindModel::Directory { children: seq![(dotdot(), st.cur)] },
        };
        Ok(ParserModel { entries: st.entries.update(k, d2).push(fresh), cur: st.cur })
    }
}

/// One line of the transcript applied to the parsing state.  A `$` line
/// leaves listing mode and dispatches on its command; while in listing
/// mode a `dir` line declares a directory and any other line a file; a
/// stray line outside a listing is a format violation.
pub open spec fn model_line(st: LineState, line: Seq<char>) -> Result<LineState, ParseError> {
    let toks = spec_split(line, ' ');
    if toks[0] == tok_dollar() {
        if toks.len() < 2 {
            Err(ParseError::MissingToken)
        } else if toks[1] == tok_cd() {
            if toks.len() < 3 {
                Err(ParseError::MissingToken)
            } else {
                match model_change_directory(st.ps, toks[2]) {
                    Ok(ps2) => Ok(LineState { ps: ps2, listing: false }),
                    Err(e) => Err(e),
                }
            }
        } else if toks[1] == tok_ls() {
            Ok(LineState { ps: st.ps, listing: true })
        } else {
            Err(ParseError::UnknownCommand)
        }
    } else if st.listing {
        if toks[0] == tok_dir() {
            if toks.len() < 2 {
                Err(ParseError::MissingToken)
            } else {
                match model_add_directory(st.ps, toks[1]) {
                    Ok(ps2) => Ok(LineState { ps: ps2, listing: true }),
                    Err(e) => Err(e),
                }
            }
        } else {
            match spec_parse_size(toks[0]) {
                None => Err(ParseError::BadSize),
                Some(size) => if toks.len() < 2 {
                    Err(ParseError::MissingToken)
                } else {
                    match model_add_file(st.ps, toks[1], size) {
                        Ok(ps2) => Ok(LineState { ps: ps2, listing: true }),
                        Err(e) => Err(e),
                    }
                },
            }
        }
    } else {
        Err(ParseError::StrayLine)
    }
}

/// The initial state: only the root directory, the cursor on it, not in
/// a listing.
pub open spec fn init_state() -> LineState {
    LineState {
        ps: ParserModel {
            entries: seq![
                EntryModel {
                    id: 1,
                    parent_id: 1,
                    name: Seq::empty(),
                    kind: KindModel::Directory { children: Seq::empty() },
                },
            ],
            cur: 1,
        },
        listing: false,
    }
}

/// The lines applied in order; the first failure ends the build.
pub open spec fn run_lines(st: LineState, ls: Seq<Seq<char>>) -> Result<LineState, ParseError>
    decreases ls.len(),
{
    if ls.len() == 0 {
        Ok(st)
    } else {
        match model_line(st, ls[0]) {
            Ok(st2) => run_lines(st2, ls.skip(1)),
            Err(e) => Err(e),
        }
    }
}

/// What the whole build yields for a transcript: the finished entry
/// collection, or the first format violation.
pub open spec fn spec_parse(s: Seq<char>) -> Result<Seq<EntryModel>, ParseError> {
    match run_lines(init_state(), spec_lines(s)) {
        Ok(st) => Ok(st.ps.entries),
        Err(e) => Err(e),
    }
}

/// The builder-state invariant at the model level: the collection is
/// well-formed and the cursor points at an existing entry.
pub open spec fn state_inv(st: LineState) -> bool {
    &&& wf(st.ps.entries)
    &&& 1 <= st.ps.cur <= st.ps.entries.len()
}

/// One successfully applied line keeps the builder state invariant.
proof fn lemma_model_line_preserves_inv(st: LineState, line: Seq<char>)
    requires
        state_inv(st),
        model_line(st, line) is Ok,
    ensures
        state_inv(model_line(st, line)->Ok_0),
{
    let toks = spec_split(line, ' ');
    let es = st.ps.entries;
    let k = st.ps.cur - 1;
    if toks[0] == tok_dollar() && toks.len() >= 3 && toks[1] == tok_cd() && toks[2]
        != tok_slash() && model_change_directory(st.ps, toks[2]) is Ok {
        let cs = entry_children(es[k]);
        let id = model_change_directory(st.ps, toks[2])->Ok_0.cur;
        lemma_find_child_some(cs, toks[2], id);
        let j = choose|j: int| 0 <= j < cs.len() && (#[trigger] cs[j]).1 == id;
        lemma_child_id_valid(es, k, j);
    }
    if !(toks[0] == tok_dollar()) && st.listing {
        if toks[0] == tok_dir() && toks.len() >= 2 && model_add_directory(st.ps, toks[1]) is Ok {
            assert(es[k].id == st.ps.cur);
            lemma_append_child_preserves_wf(
                es,
                k,
                toks[1],
                KindModel::Directory { children: seq![(dotdot(), st.ps.cur)] },
            );
        }
        if !(toks[0] == tok_dir()) && spec_parse_size(toks[0]) is Some && toks.len() >= 2
            && model_add_file(st.ps, toks[1], spec_parse_size(toks[0])->Some_0) is Ok {
            assert(es[k].id == st.ps.cur);
            lemma_append_child_preserves_wf(
                es,
                k,
                toks[1],
                KindModel::File { size: spec_parse_size(toks[0])->Some_0 },
            );
        }
    }
}

/// A successful run of the remaining lines keeps the builder state
/// invariant.
proof fn lemma_run_lines_inv(st: LineState, ls: Seq<Seq<char>>)
    requires
        state_inv(st),
        run_lines(st, ls) is Ok,
    ensures
        state_inv(run_lines(st, ls)->Ok_0),
    decreases ls.len(),
{
    if ls.len() == 0 {
    } else {
        match model_line(st, ls[0]) {
            Ok(st2) => {
                lemma_model_line_preserves_inv(st, ls[0]);
                lemma_run_lines_inv(st2, ls.skip(1));
            },
            Err(_) => {},
        }
    }
}

/// Law: every successfully built collection is well-formed — its ids are
/// unique and sequential from the root's id 1, every non-root entry is
/// listed in its parent's children, and every non-root directory's first
/// child is ("..", parent id).
pub proof fn lemma_spec_parse_wf(s: Seq<char>)
    requires
        spec_parse(s) is Ok,
    ensures
        wf(spec_parse(s)->Ok_0),
{
    let st0 = init_state();
    assert(entry_children(st0.ps.entries[0]) == Seq::<(Seq<char>, u64)>::empty());
    assert(crate::model::children_ok(st0.ps.entries, 0));
    assert(state_inv(st0));
    lemma_run_lines_inv(st0, spec_lines(s));
}

/// The index of the first entry whose id matches, by linear scan over the
/// flat collection.
pub fn index_of_id(entries: &Vec<Entry>, id: u64) -> (r: Option<usize>)
    ensures
        match r {
            Some(i) => i < entries@.len() && entries@[i as int].id == id && (forall|j: int|
                0 <= j < i ==> entries@[j].id != id),
            None => forall|j: int| 0 <= j < entries@.len() ==> entries@[j].id != id,
        },
{
    let mut i: usize = 0;
    while i < entries.len()
        invariant
            0 <= i <= entries@.len(),
            forall|j: int| 0 <= j < i ==> entries@[j].id != id,
        decreases entries@.len() - i,
    {
        if entries[i].id == id {
            return Some(i);
        }
        i += 1;
    }
    None
}

/// The first child with the given name, by linear search over the child
/// list.
fn find_child_in(children: &Vec<(String, u64)>, name: &str) -> (r: Option<u64>)
    ensures
        r == find_child(children@.map_values(|c: (String, u64)| (c.0@, c.1)), name@),
{
    let ghost cs = children@.map_values(|c: (String, u64)| (c.0@, c.1));
    let mut j: usize = 0;
    proof {
        assert(cs.skip(0) =~= cs);
    }
    while j < children.len()
        invariant
            0 <= j <= children@.len(),
            cs == children@.map_values(|c: (String, u64)| (c.0@, c.1)),
            find_child(cs, name@) == find_child(cs.skip(j as int), name@),
        decreases children@.len() - j,
    {
        proof {
            assert(cs.skip(j as int)[0] == cs[j as int]);
            assert(cs.skip(j as int).skip(1) =~= cs.skip(j + 1));
        }
        if str_eq(children[j].0.as_str(), name) {
            return Some(children[j].1);
        }
        j += 1;
    }
    proof {
        assert(cs.skip(children@.len() as int) =~= Seq::<(Seq<char>, u64)>::empty());
    }
    None
}

/// The transcript-to-tree builder: the entries so far, the
/// current-directory cursor, and the next id to assign.
pub struct Parser {
    current_dir: u64,
    entries: Vec<Entry>,
    next_id: u64,
}

impl View for Parser {
    type V = ParserModel;

    closed spec fn view(&self) -> ParserModel {
        ParserModel { entries: entries_view(self.entries@), cur: self.current_dir }
    }
}

impl Parser {
    /// The builder's invariant: the collection is well-formed, the cursor
    /// points at an existing entry, and the counter holds the next id.
    pub closed spec fn inv(&self) -> bool {
        &&& wf(self@.entries)
        &&& 1 <= self@.cur <= self@.entries.len()
        &&& self@.entries.len() < u64::MAX
        &&& self.next_id == self@.entries.len() + 1
    }

    /// A builder holding only the root directory, with the cursor on the
    /// root and 2 as the next id.
    pub fn new() -> (p: Parser)
        ensures
            p.inv(),
            p@ == init_state().ps,
    {
        let root = Entry {
            id: 1,
            parent_id: 1,
            name: String::new(),
            kind: EntryKind::Directory { children: Vec::new() },
        };
        let mut entries: Vec<Entry> = Vec::new();
        entries.push(root);
        let p = Parser { current_dir: 1, entries, next_id: 2 };
        proof {
            let m = p@.entries;
            assert(entry_children(m[0]) =~= Seq::<(Seq<char>, u64)>::empty());
            assert(m[0].name =~= Seq::<char>::empty());
            assert(m[0] == init_state().ps.entries[0]);
            assert(m =~= init_state().ps.entries);
            assert(crate::model::children_ok(m, 0));
        }
        p
    }

    /// Applies a cd command: "/" resets the cursor to the root; any other
    /// name is resolved through the current directory's child list, the
    /// same mechanism that resolves "..".
    pub fn change_directory(&mut self, dirname: &str) -> (r: Result<(), ParseError>)
        requires
            old(self).inv(),
        ensures
            final(self).inv(),
            (match model_change_directory(old(self)@, dirname@) {
                Ok(st) => r is Ok && final(self)@ == st,
                Err(e) => (match r {
                    Ok(_) => false,
                    Err(e2) => e2 == e,
                }) && final(self)@ == old(self)@,
            }),
    {
        let is_slash = str_eq(dirname, "/");
        proof {
            reveal_strlit("/");
            assert("/"@ =~= tok_slash());
        }
        if is_slash {
            self.current_dir = 1;
            return Ok(());
        }
        proof {
            vstd::std_specs::vec::axiom_spec_len(&self.entries);
            assert(self@.entries.len() == self.entries@.len());
        }
        let idx = (self.current_dir - 1) as usize;
        proof {
            let k = idx as int;
            assert(k == old(self)@.cur - 1);
            assert(0 <= k < self@.entries.len());
            assert(self@.entries[k] == self.entries@[k]@);
        }
        match &self.entries[idx].kind {
            EntryKind::File { .. } => {
                proof {
                    assert(!(self@.entries[idx as int].kind is Directory));
                }
                Err(ParseError::NotADirectory)
            },
            EntryKind::Directory { children } => {
                let ghost cs = children@.map_values(|c: (String, u64)| (c.0@, c.1));
                proof {
                    assert(self@.entries[idx as int].kind == KindModel::Directory {
                        children: cs,
                    });
                    assert(entry_children(self@.entries[idx as int]) == cs);
                }
                let found = find_child_in(children, dirname);
                match found {
                    Some(id) => {
                        proof {
                            lemma_find_child_some(cs, dirname@, id);
                            let j = choose|j: int|
                                0 <= j < cs.len() && (#[trigger] cs[j]).1 == id;
                            lemma_child_id_valid(self@.entries, idx as int, j);
                        }
                        self.current_dir = id;
                        Ok(())
                    },
                    None => Err(ParseError::NoSuchChild),
                }
            },
        }
    }

    /// Applies one file line of a listing: allocates the next id, appends
    /// (name, id) to the current directory's children, and appends the
    /// file entry.
    pub fn add_file(&mut self, filename: String, filesize: u64) -> (r: Result<(), ParseError>)
        requires
            old(self).inv(),
        ensures
            final(self).inv(),
            (match model_add_file(old(self)@, filename@, filesize) {
                Ok(st) => r is Ok && final(self)@ == st,
                Err(e) => (match r {
                    Ok(_) => false,
                    Err(e2) => e2 == e,
                }) && final(self)@ == old(self)@,
            }),
    {
        let ghost namev = filename@;
        if self.next_id == u64::MAX {
            return Err(ParseError::TooManyEntries);
        }
        proof {
            vstd::std_specs::vec::axiom_spec_len(&self.entries);
            assert(self@.entries.len() == self.entries@.len());
        }
        let idx = (self.current_dir - 1) as usize;
        proof {
            assert(self@.entries[idx as int] == self.entries@[idx as int]@);
        }
        let is_dir = match &self.entries[idx].kind {
            EntryKind::Directory { .. } => true,
            EntryKind::File { .. } => false,
        };
        if !is_dir {
            return Err(ParseError::NotADirectory);
        }
        let id = self.next_id;
        self.next_id = self.next_id + 1;
        let cur = self.current_dir;
        let entry = Entry {
            id,
            parent_id: cur,
            name: filename.clone(),
            kind: EntryKind::File { size: filesize },
        };
        let ghost oldes = self.entries@;
        let ghost oldm = entries_view(oldes);
        let ghost k = idx as int;
        let e = &mut self.entries[idx];
        match &mut e.kind {
            EntryKind::Directory { children } => {
                children.push((filename, id));
            },
            EntryKind::File { .. } => {},
        }
        let ghost mid = self.entries@[k];
        proof {
            assert(self.entries@ == oldes.update(k, mid));
            assert(entry_children(mid@) =~= entry_children(oldm[k]).push((namev, id)));
            assert(mid@ == EntryModel {
                id: oldm[k].id,
                parent_id: oldm[k].parent_id,
                name: oldm[k].name,
                kind: KindModel::Directory {
                    children: entry_children(oldm[k]).push((namev, id)),
                },
            });
        }
        self.entries.push(entry);
        proof {
            lemma_view_update(oldes, k, mid);
            lemma_view_push(oldes.update(k, mid), entry);
            assert(self@.entries == oldm.update(k, mid@).push(entry@));
            assert(oldm[k].id == old(self)@.cur);
            assert(entry@ == EntryModel {
                id,
                parent_id: oldm[k].id,
                name: namev,
                kind: KindModel::File { size: filesize },
            });
            lemma_append_child_preserves_wf(oldm, k, namev, KindModel::File { size: filesize });
        }
        Ok(())
    }

    /// Applies one dir line of a listing: allocates the next id, appends
    /// (name, id) to the current directory's children, and appends a
    /// directory entry whose child list starts with ("..", current dir).
    pub fn add_directory(&mut self, dirname: String) -> (r: Result<(), ParseError>)
        requires
            old(self).inv(),
        ensures
            final(self).inv(),
            (match model_add_directory(old(self)@, dirname@) {
                Ok(st) => r is Ok && final(self)@ == st,
                Err(e) => (match r {
                    Ok(_) => false,
                    Err(e2) => e2 == e,
                }) && final(self)@ == old(self)@,
            }),
    {
        let ghost namev = dirname@;
        if self.next_id == u64::MAX {
            return Err(ParseError::TooManyEntries);
        }
        proof {
            vstd::std_specs::vec::axiom_spec_len(&self.entries);
            assert(self@.entries.len() == self.entries@.len());
        }
        let idx = (self.current_dir - 1) as usize;
        proof {
            assert(self@.entries[idx as int] == self.entries@[idx as int]@);
        }
        let is_dir = match &self.entries[idx].kind {
            EntryKind::Directory { .. } => true,
            EntryKind::File { .. } => false,
        };
        if !is_dir {
            return Err(ParseError::NotADirectory);
        }
        let id = self.next_id;
        self.next_id = self.next_id + 1;
        let cur = self.current_dir;
        let mut seeded: Vec<(String, u64)> = Vec::new();
        seeded.push((String::from_str(".."), cur));
        let entry = Entry {
            id,
            parent_id: cur,
            name: dirname.clone(),
            kind: EntryKind::Directory { children: seeded },
        };
        proof {
            reveal_strlit("..");
            assert(".."@ =~= dotdot());
            assert(entry@.kind == KindModel::Directory { children: seq![(dotdot(), cur)] }) by {
                assert(entry_children(entry@) =~= seq![(dotdot(), cur)]);
            }
        }
        let ghost oldes = self.entries@;
        let ghost oldm = entries_view(oldes);
        let ghost k = idx as int;
        let e = &mut self.entries[idx];
        match &mut e.kind {
            EntryKind::Directory { children } => {
                children.push((dirname, id));
            },
            EntryKind::File { .. } => {},
        }
        let ghost mid = self.entries@[k];
        proof {
            assert(self.entries@ == oldes.update(k, mid));
            assert(entry_children(mid@) =~= entry_children(oldm[k]).push((namev, id)));
            assert(mid@ == EntryModel {
                id: oldm[k].id,
                parent_id: oldm[k].parent_id,
                name: oldm[k].name,
                kind: KindModel::Directory {
                    children: entry_children(oldm[k]).push((namev, id)),
                },
            });
        }
        self.entries.push(entry);
        proof {
            lemma_view_update(oldes, k, mid);
            lemma_view_push(oldes.update(k, mid), entry);
            assert(self@.entries == oldm.update(k, mid@).push(entry@));
            assert(oldm[k].id == old(self)@.cur);
            assert(entry@ == EntryModel {
                id,
                parent_id: oldm[k].id,
                name: namev,
                kind: KindModel::Directory { children: seq![(dotdot(), oldm[k].id)] },
            });
            lemma_append_child_preserves_wf(
                oldm,
                k,
                namev,
                KindModel::Directory { children: seq![(dotdot(), oldm[k].id)] },
            );
        }
        Ok(())
    }
}

/// Applies one line of the transcript to the builder and the listing
/// flag.
fn apply_line(p: &mut Parser, listing: &mut bool, line: &str) -> (r: Result<(), ParseError>)
    requires
        old(p).inv(),
    ensures
        final(p).inv(),
        (match model_line(LineState { ps: old(p)@, listing: *old(listing) }, line@) {
            Ok(st) => r is Ok && final(p)@ == st.ps && *final(listing) == st.listing,
            Err(e) => (match r {
                Ok(_) => false,
                Err(e2) => e2 == e,
            }),
        }),
{
    let toks = split_str(line, ' ');
    let ghost mtoks = spec_split(line@, ' ');
    proof {
        reveal_strlit("$");
        reveal_strlit("cd");
        reveal_strlit("ls");
        reveal_strlit("dir");
        assert("$"@ =~= tok_dollar());
        assert("cd"@ =~= tok_cd());
        assert("ls"@ =~= tok_ls());
        assert("dir"@ =~= tok_dir());
        assert(toks@[0]@ == mtoks[0]);
    }
    if str_eq(toks[0].as_str(), "$") {
        *listing = false;
        if toks.len() < 2 {
            return Err(ParseError::MissingToken);
        }
        proof {
            assert(toks@[1]@ == mtoks[1]);
        }
        if str_eq(toks[1].as_str(), "cd") {
            if toks.len() < 3 {
                return Err(ParseError::MissingToken);
            }
            proof {
                assert(toks@[2]@ == mtoks[2]);
            }
            match p.change_directory(toks[2].as_str()) {
                Ok(()) => Ok(()),
                Err(e) => Err(e),
            }
        } else if str_eq(toks[1].as_str(), "ls") {
            *listing = true;
            Ok(())
        } else {
            Err(ParseError::UnknownCommand)
        }
    } else if *listing {
        if str_eq(toks[0].as_str(), "dir") {
            if toks.len() < 2 {
                return Err(ParseError::MissingToken);
            }
            proof {
                assert(toks@[1]@ == mtoks[1]);
            }
            match p.add_directory(toks[1].clone()) {
                Ok(()) => Ok(()),
                Err(e) => Err(e),
            }
        } else {
            match parse_size(toks[0].as_str()) {
                None => Err(ParseError::BadSize),
                Some(size) => {
                    if toks.len() < 2 {
                        return Err(ParseError::MissingToken);
                    }
                    proof {
                        assert(toks@[1]@ == mtoks[1]);
                    }
                    match p.add_file(toks[1].clone(), size) {
                        Ok(()) => Ok(()),
                        Err(e) => Err(e),
                    }
                },
            }
        }
    } else {
        Err(ParseError::StrayLine)
    }
}

/// Parses a transcript into the finished entry collection, or returns
/// the first format violation.  The result is exactly what
/// [`spec_parse`] yields for the input, and a successful collection is
/// well-formed.
pub fn parse_aoc(input: &str) -> (r: Result<Vec<Entry>, ParseError>)
    ensures
        (match spec_parse(input@) {
            Ok(ms) => (match r {
                Ok(es) => entries_view(es@) == ms,
                Err(_) => false,
            }),
            Err(e) => (match r {
                Ok(_) => false,
                Err(e2) => e2 == e,
            }),
        }),
        (match r {
            Ok(es) => wf(entries_view(es@)),
            Err(_) => true,
        }),
{
    let lines = split_lines(input);
    let ghost mlines = spec_lines(input@);
    let mut p = Parser::new();
    let mut listing = false;
    let mut i: usize = 0;
    proof {
        assert(mlines.skip(0) =~= mlines);
    }
    while i < lines.len()
        invariant
            p.inv(),
            mlines == spec_lines(input@),
            mlines == lines@.map_values(|t: String| t@),
            i <= lines@.len(),
            run_lines(init_state(), mlines) == run_lines(
                LineState { ps: p@, listing },
                mlines.skip(i as int),
            ),
        decreases lines@.len() - i,
    {
        let ghost st = LineState { ps: p@, listing };
        proof {
            assert(mlines.skip(i as int)[0] == mlines[i as int]);
            assert(mlines.skip(i as int).skip(1) =~= mlines.skip(i + 1));
            assert(lines@[i as int]@ == mlines[i as int]);
        }
        match apply_line(&mut p, &mut listing, lines[i].as_str()) {
            Ok(()) => {},
            Err(e) => {
                proof {
                    let ls = mlines.skip(i as int);
                    assert(model_line(st, ls[0]) is Err);
                    assert(run_lines(st, ls) == Err::<LineState, ParseError>(e));
                }
                return Err(e);
            },
        }
        i += 1;
    }
    proof {
        assert(mlines.skip(lines@.len() as int) =~= Seq::<Seq<char>>::empty());
    }
    Ok(p.entries)
}

proof fn lemma_view_update(es: Seq<Entry>, i: int, e: Entry)
    requires
        0 <= i < es.len(),
    ensures
        entries_view(es.update(i, e)) == entries_view(es).update(i, e@),
{
    assert(entries_view(es.update(i, e)) =~= entries_view(es).update(i, e@));
}

proof fn lemma_view_push(es: Seq<Entry>, e: Entry)
    ensures
        entries_view(es.push(e)) == entries_view(es).push(e@),
{
    assert(entries_view(es.push(e)) =~= entries_view(es).push(e@));
}

} // verus!
