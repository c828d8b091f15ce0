//! The archive builder: an ordered list of pending entries, each naming
//! either a byte range in a previously opened source archive or a standalone
//! file, together with the operations the build drives it with — seeding from
//! an existing archive, removal by name, appending files, merging another
//! archive under a skip predicate, and finalizing into archive bytes.
//!
//! Entry order is semantically significant: it becomes the on-disk member
//! order, and no operation reorders entries. Entries never hold member
//! content; content is resolved once, when the builder is consumed. Because
//! [`ArArchiveBuilder::resolve`] and [`ArArchiveBuilder::build`] take the
//! builder by value, a builder cannot be finalized twice or touched after
//! finalizing: the type system rules it out.

use vstd::prelude::*;

use crate::ArchiveKind;
use crate::bytes::{base_name, base_name_of, bytes_eq, copy_range};
use crate::reader::{parse_archive, parse_spec, MemberModel, ParseError};
use crate::writer::{
    archive_bytes, member_list_view, representable, total_len, write_archive, MemberView,
    NewArchiveMember, WriteError,
};

verus! {

/// Removal was asked for a name no entry has.
#[derive(Clone, Copy, PartialEq, Eq, Structural, Debug)]
pub struct NotFound;

/// Why finalizing failed.
#[derive(Clone, Copy, PartialEq, Eq, Structural, Debug)]
pub enum BuildError {
    /// An entry names a source archive index with no source supplied.
    MissingSource,
    /// An entry's byte range does not lie within its source archive.
    BadRange,
    /// An entry names a standalone file with no content supplied.
    MissingInput,
    /// The resolved members could not be serialized.
    Write(WriteError),
}

/// A pending entry, at the specification level.
pub enum EntryModel {
    /// Content lies in source archive `archive_index`, at `[start, end)`.
    FromArchive { archive_index: int, start: int, end: int },
    /// Content is a standalone file, to be read at finalize time.
    File { path: Seq<u8> },
}

pub enum ArchiveEntry {
    FromArchive { archive_index: usize, start: usize, end: usize },
    File { path: Vec<u8> },
}

impl View for ArchiveEntry {
    type V = EntryModel;

    open spec fn view(&self) -> EntryModel {
        match self {
            ArchiveEntry::FromArchive { archive_index, start, end } => EntryModel::FromArchive {
                archive_index: *archive_index as int,
                start: *start as int,
                end: *end as int,
            },
            ArchiveEntry::File { path } => EntryModel::File { path: path@ },
        }
    }
}

/// The views of an entry list: each entry's name and model.
pub open spec fn entry_views(v: Seq<(Vec<u8>, ArchiveEntry)>) -> Seq<(Seq<u8>, EntryModel)> {
    v.map_values(|e: (Vec<u8>, ArchiveEntry)| (e.0@, e.1@))
}

/// The views of a list of source archives.
pub open spec fn sources_view(v: Seq<Vec<u8>>) -> Seq<Seq<u8>> {
    v.map_values(|s: Vec<u8>| s@)
}

/// A per-name skip predicate, as `merge` consumes it: `skip_spec` is what the
/// predicate means, and `skip` computes it.
pub trait SkipName {
    /// What the predicate holds of a name.
    spec fn skip_spec(&self, name: Seq<u8>) -> bool;

    /// Decides the predicate for one name.
    fn skip(&self, name: &Vec<u8>) -> (r: bool)
        ensures
            r == self.skip_spec(name@),
    ;
}

/// The predicate that skips nothing.
pub struct SkipNone;

impl SkipName for SkipNone {
    open spec fn skip_spec(&self, name: Seq<u8>) -> bool {
        false
    }

    fn skip(&self, name: &Vec<u8>) -> (r: bool) {
        false
    }
}

/// The predicate that skips exactly the names in a list.
pub struct SkipSet {
    pub names: Vec<Vec<u8>>,
}

impl SkipName for SkipSet {
    open spec fn skip_spec(&self, name: Seq<u8>) -> bool {
        exists|i: int| 0 <= i < self.names@.len() && (#[trigger] self.names@[i])@ == name
    }

    fn skip(&self, name: &Vec<u8>) -> (r: bool) {
        let n = self.names.len();
        let mut i: usize = 0;
        while i < n
            invariant
                0 <= i <= n == self.names@.len(),
                forall|j: int| 0 <= j < i ==> (#[trigger] self.names@[j])@ != name@,
            decreases n - i,
        {
            if bytes_eq(&self.names[i], name) {
                return true;
            }
            i += 1;
        }
        false
    }
}

/// The entries that seeding from the first `i` parsed members creates.
pub open spec fn seed_to(ms: Seq<MemberModel>, src: int, i: int) -> Seq<(Seq<u8>, EntryModel)>
    decreases i,
{
    if i <= 0 {
        Seq::empty()
    } else {
        seed_to(ms, src, i - 1).push(
            (
                ms[i - 1].name,
                EntryModel::FromArchive {
                    archive_index: src,
                    start: ms[i - 1].start,
                    end: ms[i - 1].end,
                },
            ),
        )
    }
}

/// The entries that merging the first `i` parsed members of source `src`
/// appends: exactly those whose names the predicate does not skip, in order.
pub open spec fn kept_to<S: SkipName + ?Sized>(
    skip: &S,
    ms: Seq<MemberModel>,
    src: int,
    i: int,
) -> Seq<(Seq<u8>, EntryModel)>
    decreases i,
{
    if i <= 0 {
        Seq::empty()
    } else {
        let pre = kept_to(skip, ms, src, i - 1);
        if skip.skip_spec(ms[i - 1].name) {
            pre
        } else {
            pre.push(
                (
                    ms[i - 1].name,
                    EntryModel::FromArchive {
                        archive_index: src,
                        start: ms[i - 1].start,
                        end: ms[i - 1].end,
                    },
                ),
            )
        }
    }
}

/// The first index whose entry has the given name.
pub open spec fn find_first(es: Seq<(Seq<u8>, EntryModel)>, name: Seq<u8>) -> Option<int>
    decreases es.len(),
{
    if es.len() == 0 {
        None
    } else if es[0].0 == name {
        Some(0int)
    } else {
        match find_first(es.drop_first(), name) {
            Some(i) => Some(i + 1),
            None => None,
        }
    }
}

/// What `find_first` returns when `i` is the first index bearing `name`.
pub proof fn lemma_find_first_at(es: Seq<(Seq<u8>, EntryModel)>, name: Seq<u8>, i: int)
    requires
        0 <= i < es.len(),
        es[i].0 == name,
        forall|j: int| 0 <= j < i ==> (#[trigger] es[j]).0 != name,
    ensures
        find_first(es, name) == Some(i),
    decreases i,
{
    if i > 0 {
        let tl = es.drop_first();
        lemma_find_first_at(tl, name, i - 1);
    }
}

/// `find_first` finds nothing exactly when no entry bears the name.
pub proof fn lemma_find_first_none(es: Seq<(Seq<u8>, EntryModel)>, name: Seq<u8>)
    requires
        forall|j: int| 0 <= j < es.len() ==> (#[trigger] es[j]).0 != name,
    ensures
        find_first(es, name) is None,
    decreases es.len(),
{
    if es.len() > 0 {
        lemma_find_first_none(es.drop_first(), name);
    }
}

/// What `find_first` guarantees of its result.
pub proof fn lemma_find_first_props(es: Seq<(Seq<u8>, EntryModel)>, name: Seq<u8>)
    requires
        find_first(es, name) is Some,
    ensures
        0 <= find_first(es, name)->0 < es.len(),
        es[find_first(es, name)->0].0 == name,
        forall|j: int| 0 <= j < find_first(es, name)->0 ==> (#[trigger] es[j]).0 != name,
    decreases es.len(),
{
    if es.len() > 0 && es[0].0 != name {
        lemma_find_first_props(es.drop_first(), name);
        let i = find_first(es, name)->0;
        assert forall|j: int| 0 <= j < i implies (#[trigger] es[j]).0 != name by {
            if j > 0 {
                assert(es.drop_first()[j - 1] == es[j]);
            }
        }
    }
}

/// How many of the first `i` entries are standalone files.
pub open spec fn file_count(es: Seq<(Seq<u8>, EntryModel)>, i: int) -> int
    decreases i,
{
    if i <= 0 {
        0
    } else {
        file_count(es, i - 1) + (if es[i - 1].1 is File {
            1int
        } else {
            0int
        })
    }
}

/// Whether one entry can be resolved, and the error if it cannot.
pub open spec fn entry_fail(
    e: (Seq<u8>, EntryModel),
    srcs: Seq<Seq<u8>>,
    pd: Seq<Seq<u8>>,
    fidx: int,
) -> Option<BuildError> {
    match e.1 {
        EntryModel::FromArchive { archive_index, start, end } => if !(0 <= archive_index
            < srcs.len()) {
            Some(BuildError::MissingSource)
        } else if !(0 <= start <= end <= srcs[archive_index].len()) {
            Some(BuildError::BadRange)
        } else {
            None
        },
        EntryModel::File { .. } => if fidx >= pd.len() {
            Some(BuildError::MissingInput)
        } else {
            None
        },
    }
}

/// The first resolution failure among the entries from `i` on.
pub open spec fn first_fail_from(
    es: Seq<(Seq<u8>, EntryModel)>,
    srcs: Seq<Seq<u8>>,
    pd: Seq<Seq<u8>>,
    i: int,
) -> Option<BuildError>
    decreases es.len() - i,
{
    if i < 0 || i >= es.len() {
        None
    } else {
        match entry_fail(es[i], srcs, pd, file_count(es, i)) {
            Some(e) => Some(e),
            None => first_fail_from(es, srcs, pd, i + 1),
        }
    }
}

/// What entry `i` resolves to: its name and its content bytes.
pub open spec fn resolved_entry(
    e: (Seq<u8>, EntryModel),
    srcs: Seq<Seq<u8>>,
    pd: Seq<Seq<u8>>,
    fidx: int,
) -> (Seq<u8>, Seq<u8>) {
    match e.1 {
        EntryModel::FromArchive { archive_index, start, end } => (
            e.0,
            srcs[archive_index].subrange(start, end),
        ),
        EntryModel::File { .. } => (e.0, pd[fidx]),
    }
}

/// What the first `i` entries resolve to.
pub open spec fn resolved_to(
    es: Seq<(Seq<u8>, EntryModel)>,
    srcs: Seq<Seq<u8>>,
    pd: Seq<Seq<u8>>,
    i: int,
) -> Seq<(Seq<u8>, Seq<u8>)>
    decreases i,
{
    if i <= 0 {
        Seq::empty()
    } else {
        resolved_to(es, srcs, pd, i - 1).push(
            resolved_entry(es[i - 1], srcs, pd, file_count(es, i - 1)),
        )
    }
}

/// A fully resolved member: its name and its content.
#[derive(Debug)]
pub struct ResolvedMember {
    pub name: Vec<u8>,
    pub data: Vec<u8>,
}

/// The views of a resolved member list.
pub open spec fn resolved_views(v: Seq<ResolvedMember>) -> Seq<(Seq<u8>, Seq<u8>)> {
    v.map_values(|m: ResolvedMember| (m.name@, m.data@))
}

/// The builder: the archive layout chosen at construction, how many source
/// archives have been registered, and the ordered pending entries.
pub struct ArArchiveBuilder {
    archive_kind: ArchiveKind,
    num_sources: usize,
    entries: Vec<(Vec<u8>, ArchiveEntry)>,
}

impl ArArchiveBuilder {
    /// The pending entries, in order: each a name and an entry model.
    pub closed spec fn entries(&self) -> Seq<(Seq<u8>, EntryModel)> {
        entry_views(self.entries@)
    }

    /// How many source archives have been registered.
    pub closed spec fn num_sources(&self) -> int {
        self.num_sources as int
    }

    /// The layout the builder will write.
    pub closed spec fn kind(&self) -> ArchiveKind {
        self.archive_kind
    }

    /// Creates a builder for the given layout. With an input archive, the
    /// archive is parsed, registered as source 0, and every member seeds one
    /// entry, in parse order; parse failures propagate and build nothing.
    /// Without one, the builder starts empty.
    pub fn new(kind: ArchiveKind, input: Option<&Vec<u8>>) -> (r: Result<
        ArArchiveBuilder,
        ParseError,
    >)
        ensures
            match input {
                None => r is Ok && r->Ok_0.entries() == Seq::<(Seq<u8>, EntryModel)>::empty()
                    && r->Ok_0.num_sources() == 0 && r->Ok_0.kind() == kind,
                Some(data) => match parse_spec(data@) {
                    Ok(ms) => r is Ok && r->Ok_0.entries() == seed_to(ms, 0, ms.len() as int)
                        && r->Ok_0.num_sources() == 1 && r->Ok_0.kind() == kind,
                    Err(e) => r == Err::<ArArchiveBuilder, ParseError>(e),
                },
            },
    {
        match input {
            None => {
                let b = ArArchiveBuilder {
                    archive_kind: kind,
                    num_sources: 0,
                    entries: Vec::new(),
                };
                proof {
                    assert(b.entries() =~= Seq::<(Seq<u8>, EntryModel)>::empty());
                }
                Ok(b)
            },
            Some(data) => {
                let parsed = match parse_archive(data) {
                    Ok(p) => p,
                    Err(e) => {
                        return Err(e);
                    },
                };
                let ghost msq = crate::reader::member_views(parsed@);
                let mut entries: Vec<(Vec<u8>, ArchiveEntry)> = Vec::new();
                let n = parsed.len();
                let mut i: usize = 0;
                while i < n
                    invariant
                        0 <= i <= n == parsed@.len(),
                        msq == crate::reader::member_views(parsed@),
                        entry_views(entries@) == seed_to(msq, 0, i as int),
                    decreases n - i,
                {
                    let pm = &parsed[i];
                    let nm = copy_range(&pm.name, 0, pm.name.len());
                    let ghost epre = entries@;
                    let e = ArchiveEntry::FromArchive {
                        archive_index: 0,
                        start: pm.start,
                        end: pm.end,
                    };
                    entries.push((nm, e));
                    proof {
                        assert(nm@ =~= pm.name@);
                        let f = |e: (Vec<u8>, ArchiveEntry)| (e.0@, e.1@);
                        epre.lemma_push_map_commute(f, (nm, e));
                        assert(msq[i as int] == parsed@[i as int]@);
                        assert(entry_views(entries@) =~= seed_to(msq, 0, i + 1));
                    }
                    i += 1;
                }
                Ok(
                    ArArchiveBuilder {
                        archive_kind: kind,
                        num_sources: 1,
                        entries,
                    },
                )
            },
        }
    }

    /// The names of the current entries, in current order.
    pub fn src_files(&self) -> (r: Vec<Vec<u8>>)
        ensures
            r@.len() == self.entries().len(),
            forall|i: int| 0 <= i < r@.len() ==> (#[trigger] r@[i])@ == self.entries()[i].0,
    {
        let mut out: Vec<Vec<u8>> = Vec::new();
        let n = self.entries.len();
        let mut i: usize = 0;
        while i < n
            invariant
                0 <= i <= n == self.entries@.len(),
                out@.len() == i,
                forall|j: int| 0 <= j < i ==> (#[trigger] out@[j])@ == self.entries()[j].0,
            decreases n - i,
        {
            let nm = copy_range(&self.entries[i].0, 0, self.entries[i].0.len());
            out.push(nm);
            proof {
                assert(nm@ =~= self.entries()[i as int].0);
            }
            i += 1;
        }
        out
    }

    /// Removes the first entry whose name matches, keeping all other entries
    /// in their order. An absent name is surfaced as [`NotFound`] and leaves
    /// the builder untouched: silently skipping a requested removal could
    /// leave a stale member in the final archive.
    pub fn remove_file(&mut self, name: &Vec<u8>) -> (r: Result<(), NotFound>)
        ensures
            match r {
                Ok(()) => find_first(old(self).entries(), name@) is Some && final(self).entries() == old(self).entries().remove(
                    find_first(old(self).entries(), name@)->0,
                ) && final(self).num_sources() == old(self).num_sources() && final(self).kind() == old(self).kind(),
                Err(NotFound) => find_first(old(self).entries(), name@) is None && *final(self) == *old(self),
            },
    {
        let n = self.entries.len();
        let mut i: usize = 0;
        while i < n
            invariant
                0 <= i <= n == self.entries@.len(),
                *self == *old(self),
                forall|j: int| 0 <= j < i ==> (#[trigger] self.entries()[j]).0 != name@,
            decreases n - i,
        {
            if bytes_eq(&self.entries[i].0, name) {
                proof {
                    assert(self.entries()[i as int].0 == self.entries@[i as int].0@);
                    lemma_find_first_at(self.entries(), name@, i as int);
                }
                let ghost epre = self.entries@;
                self.entries.remove(i);
                proof {
                    let ev = entry_views(epre);
                    ev.remove_ensures(i as int);
                    epre.remove_ensures(i as int);
                    assert(entry_views(self.entries@) =~= ev.remove(i as int));
                }
                return Ok(());
            }
            proof {
                assert(self.entries()[i as int].0 == self.entries@[i as int].0@);
            }
            i += 1;
        }
        proof {
            lemma_find_first_none(self.entries(), name@);
        }
        Err(NotFound)
    }

    /// Appends a standalone-file entry, named after the file's base name (the
    /// bytes after the last `/`), at the end of the current order.
    pub fn add_file(&mut self, path: &Vec<u8>)
        ensures
            final(self).entries() == old(self).entries().push(
                (base_name(path@), EntryModel::File { path: path@ }),
            ),
            final(self).num_sources() == old(self).num_sources(),
            final(self).kind() == old(self).kind(),
    {
        let nm = base_name_of(path);
        let p = copy_range(path, 0, path.len());
        let ghost epre = self.entries@;
        let e = ArchiveEntry::File { path: p };
        self.entries.push((nm, e));
        proof {
            let f = |e: (Vec<u8>, ArchiveEntry)| (e.0@, e.1@);
            epre.lemma_push_map_commute(f, (nm, e));
            assert(p@ =~= path@);
            assert(entry_views(self.entries@) =~= entry_views(epre).push(
                (base_name(path@), EntryModel::File { path: path@ }),
            ));
        }
    }

    /// Merges another archive: parses it, registers it as the next source,
    /// and appends one entry per member whose name the skip predicate does
    /// not hold, preserving that archive's internal order, after all current
    /// entries. A parse failure propagates and changes nothing.
    pub fn add_archive<S: SkipName>(&mut self, data: &Vec<u8>, skip: &S) -> (r: Result<
        (),
        ParseError,
    >)
        requires
            old(self).num_sources() < usize::MAX,
        ensures
            match r {
                Ok(()) => parse_spec(data@) is Ok && final(self).entries() == old(self).entries() + kept_to(
                    skip,
                    parse_spec(data@)->Ok_0,
                    old(self).num_sources(),
                    parse_spec(data@)->Ok_0.len() as int,
                ) && final(self).num_sources() == old(self).num_sources() + 1 && final(self).kind() == old(self).kind(),
                Err(e) => parse_spec(data@) == Err::<Seq<MemberModel>, ParseError>(e)
                    && *final(self) == *old(self),
            },
    {
        let parsed = match parse_archive(data) {
            Ok(p) => p,
            Err(e) => {
                return Err(e);
            },
        };
        let ghost msq = crate::reader::member_views(parsed@);
        let ghost base = self.entries();
        let src = self.num_sources;
        let n = parsed.len();
        let mut i: usize = 0;
        while i < n
            invariant
                0 <= i <= n == parsed@.len(),
                msq == crate::reader::member_views(parsed@),
                src as int == old(self).num_sources(),
                base == old(self).entries(),
                self.num_sources == src,
                self.archive_kind == old(self).archive_kind,
                entry_views(self.entries@) == base + kept_to(skip, msq, src as int, i as int),
            decreases n - i,
        {
            let pm = &parsed[i];
            if !skip.skip(&pm.name) {
                let nm = copy_range(&pm.name, 0, pm.name.len());
                let ghost epre = self.entries@;
                let e = ArchiveEntry::FromArchive {
                    archive_index: src,
                    start: pm.start,
                    end: pm.end,
                };
                self.entries.push((nm, e));
                proof {
                    let f = |e: (Vec<u8>, ArchiveEntry)| (e.0@, e.1@);
                    epre.lemma_push_map_commute(f, (nm, e));
                    assert(nm@ =~= pm.name@);
                    assert(msq[i as int] == parsed@[i as int]@);
                    assert(entry_views(self.entries@) =~= base + kept_to(
                        skip,
                        msq,
                        src as int,
                        i + 1,
                    ));
                }
            } else {
                proof {
                    assert(msq[i as int] == parsed@[i as int]@);
                    assert(kept_to(skip, msq, src as int, i + 1) == kept_to(
                        skip,
                        msq,
                        src as int,
                        i as int,
                    ));
                }
            }
            i += 1;
        }
        self.num_sources = src + 1;
        Ok(())
    }

    /// The paths of the standalone-file entries, in entry order: the `k`-th
    /// path is the one whose content belongs at position `k` of the
    /// `path_data` that `resolve` and `build` take.
    pub fn pending_paths(&self) -> (r: Vec<Vec<u8>>)
        ensures
            sources_view(r@) == file_paths_to(self.entries(), self.entries().len() as int),
    {
        let ghost es = self.entries();
        let mut out: Vec<Vec<u8>> = Vec::new();
        let n = self.entries.len();
        let mut i: usize = 0;
        while i < n
            invariant
                0 <= i <= n == self.entries@.len(),
                es == self.entries(),
                sources_view(out@) == file_paths_to(es, i as int),
            decreases n - i,
        {
            proof {
                assert(es[i as int].1 == self.entries@[i as int].1@);
            }
            match &self.entries[i].1 {
                ArchiveEntry::File { path } => {
                    let p = copy_range(path, 0, path.len());
                    let ghost opre = out@;
                    out.push(p);
                    proof {
                        let f = |s: Vec<u8>| s@;
                        opre.lemma_push_map_commute(f, p);
                        assert(es[i as int].1 matches EntryModel::File { path: q } && p@
                            == q);
                        assert(sources_view(out@) =~= file_paths_to(es, i + 1));
                    }
                },
                ArchiveEntry::FromArchive { .. } => {
                    proof {
                        assert(file_paths_to(es, i + 1) == file_paths_to(es, i as int));
                    }
                },
            }
            i += 1;
        }
        out
    }

    /// Consumes the builder and resolves every entry, in order, to its name
    /// and content: a `FromArchive` entry to the bytes of its range within
    /// the supplied source archives, a `File` entry to the next of the
    /// supplied file contents. Fails with the first entry that cannot be
    /// resolved — a missing source, a range outside the source's actual
    /// length, or missing file content — and never truncates or pads.
    pub fn resolve(self, sources: &Vec<Vec<u8>>, path_data: &Vec<Vec<u8>>) -> (r: Result<
        Vec<ResolvedMember>,
        BuildError,
    >)
        ensures
            match r {
                Ok(v) => first_fail_from(
                    self.entries(),
                    sources_view(sources@),
                    sources_view(path_data@),
                    0,
                ) is None && resolved_views(v@) == resolved_to(
                    self.entries(),
                    sources_view(sources@),
                    sources_view(path_data@),
                    self.entries().len() as int,
                ),
                Err(e) => first_fail_from(
                    self.entries(),
                    sources_view(sources@),
                    sources_view(path_data@),
                    0,
                ) == Some(e),
            },
    {
        let ghost es = self.entries();
        let ghost srcs = sources_view(sources@);
        let ghost pd = sources_view(path_data@);
        let mut out: Vec<ResolvedMember> = Vec::new();
        let n = self.entries.len();
        let mut i: usize = 0;
        let mut fidx: usize = 0;
        while i < n
            invariant
                0 <= i <= n == self.entries@.len(),
                es == self.entries(),
                srcs == sources_view(sources@),
                pd == sources_view(path_data@),
                fidx as int == file_count(es, i as int),
                fidx <= i,
                first_fail_from(es, srcs, pd, 0) == first_fail_from(es, srcs, pd, i as int),
                resolved_views(out@) == resolved_to(es, srcs, pd, i as int),
            decreases n - i,
        {
            let name = copy_range(&self.entries[i].0, 0, self.entries[i].0.len());
            proof {
                assert(es[i as int].0 == self.entries@[i as int].0@);
                assert(es[i as int].1 == self.entries@[i as int].1@);
            }
            let data: Vec<u8> = match &self.entries[i].1 {
                ArchiveEntry::FromArchive { archive_index, start, end } => {
                    let ai = *archive_index;
                    let s = *start;
                    let e = *end;
                    if ai >= sources.len() {
                        proof {
                            assert(entry_fail(es[i as int], srcs, pd, file_count(es, i as int))
                                == Some(BuildError::MissingSource));
                        }
                        return Err(BuildError::MissingSource);
                    }
                    let src = &sources[ai];
                    if s > e || e > src.len() {
                        proof {
                            assert(srcs[ai as int] == sources@[ai as int]@);
                            assert(entry_fail(es[i as int], srcs, pd, file_count(es, i as int))
                                == Some(BuildError::BadRange));
                        }
                        return Err(BuildError::BadRange);
                    }
                    proof {
                        assert(srcs[ai as int] == sources@[ai as int]@);
                    }
                    copy_range(src, s, e)
                },
                ArchiveEntry::File { .. } => {
                    if fidx >= path_data.len() {
                        proof {
                            assert(entry_fail(es[i as int], srcs, pd, file_count(es, i as int))
                                == Some(BuildError::MissingInput));
                        }
                        return Err(BuildError::MissingInput);
                    }
                    let d = copy_range(&path_data[fidx], 0, path_data[fidx].len());
                    proof {
                        assert(pd[fidx as int] == path_data@[fidx as int]@);
                        assert(d@ =~= pd[fidx as int]);
                    }
                    fidx = fidx + 1;
                    d
                },
            };
            let ghost opre = out@;
            let rm = ResolvedMember { name, data };
            out.push(rm);
            proof {
                assert(entry_fail(es[i as int], srcs, pd, file_count(es, i as int)) is None);
                let f = |m: ResolvedMember| (m.name@, m.data@);
                opre.lemma_push_map_commute(f, rm);
                assert((rm.name@, rm.data@) == resolved_entry(
                    es[i as int],
                    srcs,
                    pd,
                    file_count(es, i as int),
                ));
                assert(resolved_views(out@) =~= resolved_to(es, srcs, pd, i + 1));
                assert(file_count(es, i + 1) == file_count(es, i as int) + (
                if es[i as int].1 is File {
                    1int
                } else {
                    0int
                }));
            }
            i += 1;
        }
        Ok(out)
    }

    /// Consumes the builder and produces the bytes of the output archive:
    /// every entry is resolved, in order, given fixed metadata for
    /// reproducible builds (modification time 0, owner 0, group 0, permission
    /// bits `0o644`) and its list of defined symbol names, and the member
    /// list is serialized in the layout chosen at construction. All or
    /// nothing: the first entry that cannot be resolved, or a member list
    /// that cannot be represented, fails the whole build. A builder can be
    /// built only once: `build` takes it by value.
    pub fn build(
        self,
        sources: &Vec<Vec<u8>>,
        path_data: &Vec<Vec<u8>>,
        symbols: &Vec<Vec<Vec<u8>>>,
        write_symtab: bool,
    ) -> (r: Result<Vec<u8>, BuildError>)
        requires
            symbols@.len() == self.entries().len(),
        ensures
            match r {
                Ok(out) => first_fail_from(
                    self.entries(),
                    sources_view(sources@),
                    sources_view(path_data@),
                    0,
                ) is None && representable(
                    self.kind(),
                    build_members(
                        resolved_to(
                            self.entries(),
                            sources_view(sources@),
                            sources_view(path_data@),
                            self.entries().len() as int,
                        ),
                        symbols_view(symbols@),
                    ),
                    write_symtab,
                ) && out@ == archive_bytes(
                    self.kind(),
                    build_members(
                        resolved_to(
                            self.entries(),
                            sources_view(sources@),
                            sources_view(path_data@),
                            self.entries().len() as int,
                        ),
                        symbols_view(symbols@),
                    ),
                    write_symtab,
                ),
                Err(BuildError::Write(we)) => we == WriteError::TooLarge && first_fail_from(
                    self.entries(),
                    sources_view(sources@),
                    sources_view(path_data@),
                    0,
                ) is None && total_len(
                    self.kind(),
                    build_members(
                        resolved_to(
                            self.entries(),
                            sources_view(sources@),
                            sources_view(path_data@),
                            self.entries().len() as int,
                        ),
                        symbols_view(symbols@),
                    ),
                    write_symtab,
                ) > 0xFFFFFFFF,
                Err(e) => first_fail_from(
                    self.entries(),
                    sources_view(sources@),
                    sources_view(path_data@),
                    0,
                ) == Some(e),
            },
    {
        let kind = self.archive_kind;
        let ghost es = self.entries();
        let ghost kd = self.kind();
        let rs = match self.resolve(sources, path_data) {
            Ok(v) => v,
            Err(e) => {
                proof {
                    lemma_first_fail_no_write(
                        es,
                        sources_view(sources@),
                        sources_view(path_data@),
                        0,
                    );
                }
                return Err(e);
            },
        };
        let ghost rv = resolved_views(rs@);
        let ghost sv = symbols_view(symbols@);
        proof {
            lemma_resolved_len(es, sources_view(sources@), sources_view(path_data@),
            es.len() as int);
        }
        let mut members: Vec<NewArchiveMember> = Vec::new();
        let n = rs.len();
        let mut i: usize = 0;
        while i < n
            invariant
                0 <= i <= n == rs@.len(),
                rv == resolved_views(rs@),
                sv == symbols_view(symbols@),
                symbols@.len() == n,
                members@.len() == i,
                forall|j: int|
                    0 <= j < i ==> member_list_view(members@)[j] == build_members(
                        rv,
                        sv,
                    )[j],
            decreases n - i,
        {
            let m = &rs[i];
            let name = copy_range(&m.name, 0, m.name.len());
            let data = copy_range(&m.data, 0, m.data.len());
            let syms = copy_list(&symbols[i]);
            let nm = NewArchiveMember {
                member_name: name,
                buf: data,
                symbols: syms,
                mtime: 0,
                uid: 0,
                gid: 0,
                perms: 0o644,
            };
            members.push(nm);
            proof {
                assert(rv[i as int] == (rs@[i as int].name@, rs@[i as int].data@));
                assert(sv[i as int] == symbols@[i as int]@.map_values(
                    |x: Vec<u8>| x@,
                ));
                assert(name@ =~= rv[i as int].0);
                assert(data@ =~= rv[i as int].1);
                assert(member_list_view(members@)[i as int] == nm@);
                assert(nm@ == build_members(rv, sv)[i as int]);
            }
            i += 1;
        }
        proof {
            assert(member_list_view(members@) =~= build_members(rv, sv));
        }
        let out = match write_archive(&members, kind, write_symtab) {
            Ok(o) => o,
            Err(we) => {
                proof {
                    crate::writer::lemma_pow_vals();
                    assert forall|j: int|
                        0 <= j < build_members(rv, sv).len() implies crate::writer::meta_ok(
                        #[trigger] build_members(rv, sv)[j],
                    ) by {
                        assert(build_members(rv, sv)[j].mtime == 0);
                    }
                    assert(crate::writer::all_meta_ok(build_members(rv, sv)));
                }
                return Err(BuildError::Write(we));
            },
        };
        Ok(out)
    }
}

/// The symbol lists handed to `build`, at the specification level.
pub open spec fn symbols_view(v: Seq<Vec<Vec<u8>>>) -> Seq<Seq<Seq<u8>>> {
    v.map_values(|s: Vec<Vec<u8>>| s@.map_values(|x: Vec<u8>| x@))
}

/// The members a build hands to the writer: each resolved entry with its
/// symbols and the fixed, reproducible metadata.
pub open spec fn build_members(rs: Seq<(Seq<u8>, Seq<u8>)>, syms: Seq<Seq<Seq<u8>>>) -> Seq<
    MemberView,
> {
    Seq::new(
        rs.len(),
        |i: int|
            MemberView {
                name: rs[i].0,
                data: rs[i].1,
                symbols: if 0 <= i < syms.len() {
                    syms[i]
                } else {
                    Seq::empty()
                },
                mtime: 0,
                uid: 0,
                gid: 0,
                perms: 0o644,
            },
    )
}

/// The paths of the standalone-file entries among the first `i` entries.
pub open spec fn file_paths_to(es: Seq<(Seq<u8>, EntryModel)>, i: int) -> Seq<Seq<u8>>
    decreases i,
{
    if i <= 0 {
        Seq::empty()
    } else {
        match es[i - 1].1 {
            EntryModel::File { path } => file_paths_to(es, i - 1).push(path),
            EntryModel::FromArchive { .. } => file_paths_to(es, i - 1),
        }
    }
}

/// A resolution failure is never a serialization failure.
pub proof fn lemma_first_fail_no_write(
    es: Seq<(Seq<u8>, EntryModel)>,
    srcs: Seq<Seq<u8>>,
    pd: Seq<Seq<u8>>,
    i: int,
)
    ensures
        first_fail_from(es, srcs, pd, i) matches Some(e) ==> !(e is Write),
    decreases es.len() - i,
{
    if 0 <= i < es.len() {
        lemma_first_fail_no_write(es, srcs, pd, i + 1);
    }
}

/// Resolving `i` entries yields `i` members.
pub proof fn lemma_resolved_len(
    es: Seq<(Seq<u8>, EntryModel)>,
    srcs: Seq<Seq<u8>>,
    pd: Seq<Seq<u8>>,
    i: int,
)
    requires
        i >= 0,
    ensures
        resolved_to(es, srcs, pd, i).len() == i,
    decreases i,
{
    if i > 0 {
        lemma_resolved_len(es, srcs, pd, i - 1);
    }
}

/// Copies a list of byte vectors.
fn copy_list(v: &Vec<Vec<u8>>) -> (r: Vec<Vec<u8>>)
    ensures
        r@.map_values(|x: Vec<u8>| x@) == v@.map_values(|x: Vec<u8>| x@),
{
    let mut out: Vec<Vec<u8>> = Vec::new();
    let n = v.len();
    let mut i: usize = 0;
    while i < n
        invariant
            0 <= i <= n == v@.len(),
            out@.len() == i,
            forall|j: int| 0 <= j < i ==> (#[trigger] out@[j])@ == v@[j]@,
        decreases n - i,
    {
        let c = copy_range(&v[i], 0, v[i].len());
        out.push(c);
        proof {
            assert(c@ =~= v@[i as int]@);
        }
        i += 1;
    }
    proof {
        assert(out@.map_values(|x: Vec<u8>| x@) =~= v@.map_values(|x: Vec<u8>| x@));
    }
    out
}

/// Law: removal removes the name. If at most one entry bears `name` and
/// `remove_file` succeeds — its `ensures` says the result is the old list
/// with the first such entry removed — then no remaining entry bears `name`.
/// The other half of the law, that removal of an absent name fails with
/// `NotFound` and never mutates the list, is stated by `remove_file`'s
/// `ensures` directly.
pub proof fn lemma_remove_clears_name(es: Seq<(Seq<u8>, EntryModel)>, name: Seq<u8>)
    requires
        find_first(es, name) is Some,
        forall|j: int|
            0 <= j < es.len() && (#[trigger] es[j]).0 == name ==> j == find_first(
                es,
                name,
            )->0,
    ensures
        forall|j: int|
            0 <= j < es.remove(find_first(es, name)->0).len() ==> (#[trigger] es.remove(
                find_first(es, name)->0,
            )[j]).0 != name,
{
    lemma_find_first_props(es, name);
    let i = find_first(es, name)->0;
    es.remove_ensures(i);
    assert forall|j: int|
        0 <= j < es.remove(i).len() implies (#[trigger] es.remove(i)[j]).0 != name by {
        if j < i {
            assert(es.remove(i)[j] == es[j]);
        } else {
            assert(es.remove(i)[j] == es[j + 1]);
        }
    }
}

/// Law: adding a file appends it last. After `add_file` the entry list is one
/// longer, every earlier entry is unchanged, and the last name is the base
/// name of the added path — so the last element of `src_files` is that base
/// name.
pub proof fn lemma_add_file_order(es: Seq<(Seq<u8>, EntryModel)>, path: Seq<u8>)
    ensures
        es.push((base_name(path), EntryModel::File { path })).len() == es.len() + 1,
        es.push((base_name(path), EntryModel::File { path })).last().0 == base_name(
            path,
        ),
        forall|j: int|
            0 <= j < es.len() ==> es.push((base_name(path), EntryModel::File { path }))[j]
                == es[j],
{
}

} // verus!
