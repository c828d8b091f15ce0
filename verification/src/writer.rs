//! The archive writer: serializes a finalized, ordered list of members into a
//! GNU- or Darwin-style `ar` archive, including the symbol lookup table that
//! linkers use to resolve symbols to members.
//!
//! The exact bytes produced are defined by the specification function
//! [`archive_bytes`]; [`write_archive`] is proved to return exactly those
//! bytes. Member order in the output is exactly the input order: the writer
//! performs no reordering.

use vstd::prelude::*;

use crate::ArchiveKind;
use crate::bytes::{padded_field, pow_b, spaces};
use crate::reader::until_slash;

verus! {

/// Why an archive could not be serialized.
#[derive(Clone, Copy, PartialEq, Eq, Structural, Debug)]
pub enum WriteError {
    /// A member's modification time, owner, group, or permission bits do not
    /// fit their fixed-width header fields.
    FieldOverflow,
    /// The archive would exceed the 4 GiB the symbol table's 32-bit member
    /// offsets can address.
    TooLarge,
}

/// A member to be written, at the specification level.
pub struct MemberView {
    pub name: Seq<u8>,
    pub data: Seq<u8>,
    pub symbols: Seq<Seq<u8>>,
    pub mtime: nat,
    pub uid: nat,
    pub gid: nat,
    pub perms: nat,
}

/// A fully materialized member handed to the writer: its name, raw content,
/// the symbol names it defines (for the symbol table), and its metadata.
pub struct NewArchiveMember {
    pub member_name: Vec<u8>,
    pub buf: Vec<u8>,
    pub symbols: Vec<Vec<u8>>,
    pub mtime: u64,
    pub uid: u32,
    pub gid: u32,
    pub perms: u32,
}

impl View for NewArchiveMember {
    type V = MemberView;

    open spec fn view(&self) -> MemberView {
        MemberView {
            name: self.member_name@,
            data: self.buf@,
            symbols: self.symbols@.map_values(|s: Vec<u8>| s@),
            mtime: self.mtime as nat,
            uid: self.uid as nat,
            gid: self.gid as nat,
            perms: self.perms as nat,
        }
    }
}

/// The views of a member list.
pub open spec fn member_list_view(v: Seq<NewArchiveMember>) -> Seq<MemberView> {
    v.map_values(|m: NewArchiveMember| m@)
}

// ---------------------------------------------------------------------------
// Specification of the output bytes
// ---------------------------------------------------------------------------

/// A 32-bit big-endian number.
pub open spec fn be32(n: nat) -> Seq<u8> {
    seq![
        (n / 0x1000000 % 256) as u8,
        (n / 0x10000 % 256) as u8,
        (n / 0x100 % 256) as u8,
        (n % 256) as u8,
    ]
}

/// A 32-bit little-endian number.
pub open spec fn le32(n: nat) -> Seq<u8> {
    seq![
        (n % 256) as u8,
        (n / 0x100 % 256) as u8,
        (n / 0x10000 % 256) as u8,
        (n / 0x1000000 % 256) as u8,
    ]
}

/// The numeric fields and end marker of a member header: modification time,
/// owner, group, permission bits (octal), size, and the closing `` `\n ``.
pub open spec fn header_tail(mtime: nat, uid: nat, gid: nat, perms: nat, size: nat) -> Seq<
    u8,
> {
    padded_field(mtime, 10, 12) + padded_field(uid, 10, 6) + padded_field(gid, 10, 6)
        + padded_field(perms, 8, 8) + padded_field(size, 10, 10) + seq![96u8, 10u8]
}

/// A complete 60-byte member header: 16 bytes of name field, then the tail.
pub open spec fn header_bytes(
    namef: Seq<u8>,
    mtime: nat,
    uid: nat,
    gid: nat,
    perms: nat,
    size: nat,
) -> Seq<u8> {
    namef + header_tail(mtime, uid, gid, perms, size)
}

/// The newline that pads a member of odd size to even alignment.
pub open spec fn pad_of(n: nat) -> Seq<u8> {
    if n % 2 == 1 {
        seq![10u8]
    } else {
        Seq::empty()
    }
}

/// A name the GNU layout can store in the header itself: at most fifteen
/// bytes and no `/`.
pub open spec fn gnu_short(name: Seq<u8>) -> bool {
    name.len() <= 15 && until_slash(name) is None
}

/// The string-table entry a member contributes: its name and `/\n`, or
/// nothing if the name is short.
pub open spec fn gnu_strtab_entry(m: MemberView) -> Seq<u8> {
    if gnu_short(m.name) {
        Seq::empty()
    } else {
        m.name + seq![47u8, 10u8]
    }
}

/// The GNU string table built from the first `i` members.
pub open spec fn gnu_strtab_to(ms: Seq<MemberView>, i: int) -> Seq<u8>
    decreases i,
{
    if i <= 0 {
        Seq::empty()
    } else {
        gnu_strtab_to(ms, i - 1) + gnu_strtab_entry(ms[i - 1])
    }
}

/// The whole GNU string table.
pub open spec fn gnu_strtab(ms: Seq<MemberView>) -> Seq<u8> {
    gnu_strtab_to(ms, ms.len() as int)
}

/// Where member `i`'s name begins within the string table.
pub open spec fn gnu_name_off(ms: Seq<MemberView>, i: int) -> nat {
    gnu_strtab_to(ms, i).len()
}

/// The 16-byte name field of member `i` in the GNU layout: `name/` padded
/// with spaces, or `/offset` into the string table.
pub open spec fn gnu_name_field(ms: Seq<MemberView>, i: int) -> Seq<u8> {
    if gnu_short(ms[i].name) {
        ms[i].name + seq![47u8] + spaces((15 - ms[i].name.len()) as nat)
    } else {
        seq![47u8] + padded_field(gnu_name_off(ms, i), 10, 15)
    }
}

/// The 16-byte name field of the BSD/Darwin layout: `#1/` and the length of
/// the name, which is stored in front of the member content.
pub open spec fn bsd_name_field(name: Seq<u8>) -> Seq<u8> {
    seq![35u8, 49u8, 47u8] + padded_field(name.len(), 10, 13)
}

/// The first `k` symbols of member `i`, each paired with `i`.
pub open spec fn member_sym_pairs(m: MemberView, i: int, k: int) -> Seq<(Seq<u8>, int)>
    decreases k,
{
    if k <= 0 {
        Seq::empty()
    } else {
        member_sym_pairs(m, i, k - 1).push((m.symbols[k - 1], i))
    }
}

/// The flattened symbol list of the first `i` members: each symbol name
/// paired with the index of the member that defines it.
pub open spec fn syms_to(ms: Seq<MemberView>, i: int) -> Seq<(Seq<u8>, int)>
    decreases i,
{
    if i <= 0 {
        Seq::empty()
    } else {
        syms_to(ms, i - 1) + member_sym_pairs(
            ms[i - 1],
            i - 1,
            ms[i - 1].symbols.len() as int,
        )
    }
}

/// All symbols of the member list, in member order.
pub open spec fn syms_of(ms: Seq<MemberView>) -> Seq<(Seq<u8>, int)> {
    syms_to(ms, ms.len() as int)
}

/// The symbol-name string pool of the first `k` symbols: each name followed
/// by a NUL.
pub open spec fn symstr_to(ss: Seq<(Seq<u8>, int)>, k: int) -> Seq<u8>
    decreases k,
{
    if k <= 0 {
        Seq::empty()
    } else {
        symstr_to(ss, k - 1) + ss[k - 1].0 + seq![0u8]
    }
}

/// The size of a member's content on disk: the Darwin layout stores the name
/// in front of the data and counts it in the size field.
pub open spec fn member_size(kind: ArchiveKind, m: MemberView) -> nat {
    match kind {
        ArchiveKind::Gnu => m.data.len(),
        ArchiveKind::Darwin => m.name.len() + m.data.len(),
    }
}

/// Header, content, and padding of one member.
pub open spec fn member_block_len(kind: ArchiveKind, m: MemberView) -> nat {
    60 + member_size(kind, m) + member_size(kind, m) % 2
}

/// The bytes taken by the first `i` members.
pub open spec fn members_len_to(kind: ArchiveKind, ms: Seq<MemberView>, i: int) -> nat
    decreases i,
{
    if i <= 0 {
        0
    } else {
        members_len_to(kind, ms, i - 1) + member_block_len(kind, ms[i - 1])
    }
}

/// The content size of the symbol table member.
pub open spec fn symtab_size(kind: ArchiveKind, ms: Seq<MemberView>) -> nat {
    match kind {
        ArchiveKind::Gnu => 4 + 4 * syms_of(ms).len() + symstr_to(
            syms_of(ms),
            syms_of(ms).len() as int,
        ).len(),
        ArchiveKind::Darwin => 9 + 4 + 8 * syms_of(ms).len() + 4 + symstr_to(
            syms_of(ms),
            syms_of(ms).len() as int,
        ).len(),
    }
}

/// The bytes the symbol table member takes, or zero if none is written.
pub open spec fn symtab_block_len(
    kind: ArchiveKind,
    ms: Seq<MemberView>,
    symtab: bool,
) -> nat {
    if symtab {
        60 + symtab_size(kind, ms) + symtab_size(kind, ms) % 2
    } else {
        0
    }
}

/// The bytes the GNU string table member takes, or zero if it is empty or
/// the layout is Darwin.
pub open spec fn strtab_block_len(kind: ArchiveKind, ms: Seq<MemberView>) -> nat {
    if kind is Gnu && gnu_strtab(ms).len() > 0 {
        60 + gnu_strtab(ms).len() + gnu_strtab(ms).len() % 2
    } else {
        0
    }
}

/// Where member `i`'s header begins in the output file.
pub open spec fn member_offset(
    kind: ArchiveKind,
    ms: Seq<MemberView>,
    symtab: bool,
    i: int,
) -> nat {
    8 + symtab_block_len(kind, ms, symtab) + strtab_block_len(kind, ms)
        + members_len_to(kind, ms, i)
}

/// The length of the whole archive.
pub open spec fn total_len(kind: ArchiveKind, ms: Seq<MemberView>, symtab: bool) -> nat {
    member_offset(kind, ms, symtab, ms.len() as int)
}

/// The member-offset table of the GNU symbol table: one big-endian offset per
/// symbol, pointing at the defining member's header.
pub open spec fn gnu_offs_to(
    kind: ArchiveKind,
    ms: Seq<MemberView>,
    ss: Seq<(Seq<u8>, int)>,
    k: int,
) -> Seq<u8>
    decreases k,
{
    if k <= 0 {
        Seq::empty()
    } else {
        gnu_offs_to(kind, ms, ss, k - 1) + be32(member_offset(kind, ms, true, ss[k - 1].1))
    }
}

/// The content of the GNU symbol table: symbol count, member offsets, names.
pub open spec fn gnu_symtab_content(ms: Seq<MemberView>) -> Seq<u8> {
    let ss = syms_of(ms);
    be32(ss.len()) + gnu_offs_to(ArchiveKind::Gnu, ms, ss, ss.len() as int) + symstr_to(
        ss,
        ss.len() as int,
    )
}

/// The ranlib pair table of the Darwin symbol table: for each symbol, its
/// offset in the string pool and its member's header offset, little-endian.
pub open spec fn darwin_ranlib_to(
    ms: Seq<MemberView>,
    ss: Seq<(Seq<u8>, int)>,
    k: int,
) -> Seq<u8>
    decreases k,
{
    if k <= 0 {
        Seq::empty()
    } else {
        darwin_ranlib_to(ms, ss, k - 1) + le32(symstr_to(ss, k - 1).len()) + le32(
            member_offset(ArchiveKind::Darwin, ms, true, ss[k - 1].1),
        )
    }
}

/// The content of the Darwin symbol table after its `__.SYMDEF` name: ranlib
/// table size, ranlib pairs, string pool size, string pool.
pub open spec fn darwin_symtab_content(ms: Seq<MemberView>) -> Seq<u8> {
    let ss = syms_of(ms);
    le32(8 * ss.len()) + darwin_ranlib_to(ms, ss, ss.len() as int) + le32(
        symstr_to(ss, ss.len() as int).len(),
    ) + symstr_to(ss, ss.len() as int)
}

/// The name of the BSD/Darwin symbol table member, `__.SYMDEF`.
pub open spec fn symdef_seq() -> Seq<u8> {
    seq![95u8, 95u8, 46u8, 83u8, 89u8, 77u8, 68u8, 69u8, 70u8]
}

/// The symbol table member, header and padding included.
pub open spec fn symtab_block(kind: ArchiveKind, ms: Seq<MemberView>) -> Seq<u8> {
    let ssize = symtab_size(kind, ms);
    match kind {
        ArchiveKind::Gnu => header_bytes(seq![47u8] + spaces(15), 0, 0, 0, 0, ssize)
            + gnu_symtab_content(ms) + pad_of(ssize),
        ArchiveKind::Darwin => header_bytes(bsd_name_field(symdef_seq()), 0, 0, 0, 0, ssize)
            + symdef_seq() + darwin_symtab_content(ms) + pad_of(ssize),
    }
}

/// The GNU string table member, header and padding included.
pub open spec fn strtab_block(ms: Seq<MemberView>) -> Seq<u8> {
    let st = gnu_strtab(ms);
    header_bytes(seq![47u8, 47u8] + spaces(14), 0, 0, 0, 0, st.len()) + st + pad_of(
        st.len(),
    )
}

/// One member on disk: header, name (Darwin), content, padding.
pub open spec fn member_block(kind: ArchiveKind, ms: Seq<MemberView>, i: int) -> Seq<u8> {
    let m = ms[i];
    let sz = member_size(kind, m);
    match kind {
        ArchiveKind::Gnu => header_bytes(
            gnu_name_field(ms, i),
            m.mtime,
            m.uid,
            m.gid,
            m.perms,
            sz,
        ) + m.data + pad_of(sz),
        ArchiveKind::Darwin => header_bytes(
            bsd_name_field(m.name),
            m.mtime,
            m.uid,
            m.gid,
            m.perms,
            sz,
        ) + m.name + m.data + pad_of(sz),
    }
}

/// The bytes of the first `i` members.
pub open spec fn members_bytes_to(kind: ArchiveKind, ms: Seq<MemberView>, i: int) -> Seq<
    u8,
>
    decreases i,
{
    if i <= 0 {
        Seq::empty()
    } else {
        members_bytes_to(kind, ms, i - 1) + member_block(kind, ms, i - 1)
    }
}

/// The whole archive: magic, symbol table (if requested), GNU string table
/// (if needed), then every member in input order.
pub open spec fn archive_bytes(
    kind: ArchiveKind,
    ms: Seq<MemberView>,
    symtab: bool,
) -> Seq<u8> {
    crate::reader::magic() + (if symtab {
        symtab_block(kind, ms)
    } else {
        Seq::empty()
    }) + (if kind is Gnu && gnu_strtab(ms).len() > 0 {
        strtab_block(ms)
    } else {
        Seq::empty()
    }) + members_bytes_to(kind, ms, ms.len() as int)
}

/// A member's metadata fits the fixed-width header fields.
pub open spec fn meta_ok(m: MemberView) -> bool {
    m.mtime < pow_b(10, 12) && m.uid < pow_b(10, 6) && m.gid < pow_b(10, 6) && m.perms
        < pow_b(8, 8)
}

/// Every member's metadata fits.
pub open spec fn all_meta_ok(ms: Seq<MemberView>) -> bool {
    forall|i: int| 0 <= i < ms.len() ==> meta_ok(#[trigger] ms[i])
}

/// The member list can be serialized: metadata fits its fields and the whole
/// archive stays within the 4 GiB that 32-bit symbol-table offsets address.
pub open spec fn representable(
    kind: ArchiveKind,
    ms: Seq<MemberView>,
    symtab: bool,
) -> bool {
    all_meta_ok(ms) && total_len(kind, ms, symtab) <= 0xFFFFFFFF
}

// ---------------------------------------------------------------------------
// Encoding helpers
// ---------------------------------------------------------------------------

/// Appends a 32-bit big-endian number.
fn push_u32be(out: &mut Vec<u8>, v: u64)
    requires
        v <= 0xFFFFFFFF,
    ensures
        final(out)@ == old(out)@ + be32(v as nat),
{
    out.push((v / 0x1000000 % 256) as u8);
    out.push((v / 0x10000 % 256) as u8);
    out.push((v / 0x100 % 256) as u8);
    out.push((v % 256) as u8);
    proof {
        assert(out@ =~= old(out)@ + be32(v as nat));
    }
}

/// Appends a 32-bit little-endian number.
fn push_u32le(out: &mut Vec<u8>, v: u64)
    requires
        v <= 0xFFFFFFFF,
    ensures
        final(out)@ == old(out)@ + le32(v as nat),
{
    out.push((v % 256) as u8);
    out.push((v / 0x100 % 256) as u8);
    out.push((v / 0x10000 % 256) as u8);
    out.push((v / 0x1000000 % 256) as u8);
    proof {
        assert(out@ =~= old(out)@ + le32(v as nat));
    }
}

/// The values of the powers the header fields allow.
pub proof fn lemma_pow_vals()
    ensures
        pow_b(10, 6) == 1000000,
        pow_b(8, 8) == 16777216,
        pow_b(10, 10) == 10000000000,
        pow_b(10, 12) == 1000000000000,
        pow_b(10, 13) == 10000000000000,
        pow_b(10, 15) == 1000000000000000,
{
    assert(pow_b(8, 0) == 1);
    assert(pow_b(8, 1) == 8);
    assert(pow_b(8, 2) == 64);
    assert(pow_b(8, 3) == 512);
    assert(pow_b(8, 4) == 4096);
    assert(pow_b(8, 5) == 32768);
    assert(pow_b(8, 6) == 262144);
    assert(pow_b(8, 7) == 2097152);
    assert(pow_b(8, 8) == 16777216);
    assert(pow_b(10, 0) == 1);
    assert(pow_b(10, 1) == 10);
    assert(pow_b(10, 2) == 100);
    assert(pow_b(10, 3) == 1000);
    assert(pow_b(10, 4) == 10000);
    assert(pow_b(10, 5) == 100000);
    assert(pow_b(10, 6) == 1000000);
    assert(pow_b(10, 7) == 10000000);
    assert(pow_b(10, 8) == 100000000);
    assert(pow_b(10, 9) == 1000000000);
    assert(pow_b(10, 10) == 10000000000);
    assert(pow_b(10, 11) == 100000000000);
    assert(pow_b(10, 12) == 1000000000000);
    assert(pow_b(10, 13) == 10000000000000);
    assert(pow_b(10, 14) == 100000000000000);
    assert(pow_b(10, 15) == 1000000000000000);
}

/// The views of a flattened symbol list.
pub open spec fn sym_pairs_view(v: Seq<(Vec<u8>, usize)>) -> Seq<(Seq<u8>, int)> {
    v.map_values(|p: (Vec<u8>, usize)| (p.0@, p.1 as int))
}

/// Earlier members take no more bytes than all members.
pub proof fn lemma_members_len_mono(kind: ArchiveKind, ms: Seq<MemberView>, i: int, j: int)
    requires
        0 <= i <= j,
    ensures
        members_len_to(kind, ms, i) <= members_len_to(kind, ms, j),
    decreases j,
{
    if i < j {
        lemma_members_len_mono(kind, ms, i, j - 1);
    }
}

/// A prefix of the symbol string pool is no longer than the whole pool.
pub proof fn lemma_symstr_mono(ss: Seq<(Seq<u8>, int)>, i: int, j: int)
    requires
        0 <= i <= j,
    ensures
        symstr_to(ss, i).len() <= symstr_to(ss, j).len(),
    decreases j,
{
    if i < j {
        lemma_symstr_mono(ss, i, j - 1);
    }
}

/// A prefix of the string table is no longer than the whole table.
pub proof fn lemma_strtab_mono(ms: Seq<MemberView>, i: int, j: int)
    requires
        0 <= i <= j,
    ensures
        gnu_strtab_to(ms, i).len() <= gnu_strtab_to(ms, j).len(),
    decreases j,
{
    if i < j {
        lemma_strtab_mono(ms, i, j - 1);
    }
}

/// Collects every member's symbols into one list, each symbol paired with
/// the index of its member.
fn flatten_symbols(members: &Vec<NewArchiveMember>) -> (r: Vec<(Vec<u8>, usize)>)
    ensures
        sym_pairs_view(r@) == syms_of(member_list_view(members@)),
        forall|k: int| 0 <= k < r@.len() ==> (#[trigger] r@[k]).1 < members@.len(),
{
    let ghost msv = member_list_view(members@);
    let mut flat: Vec<(Vec<u8>, usize)> = Vec::new();
    let n = members.len();
    let mut i: usize = 0;
    while i < n
        invariant
            0 <= i <= n == members@.len(),
            msv == member_list_view(members@),
            sym_pairs_view(flat@) == syms_to(msv, i as int),
            forall|k: int| 0 <= k < flat@.len() ==> (#[trigger] flat@[k]).1 < n,
        decreases n - i,
    {
        let m = &members[i];
        let sn = m.symbols.len();
        let mut k: usize = 0;
        while k < sn
            invariant
                0 <= k <= sn == members@[i as int].symbols@.len(),
                0 <= i < n == members@.len(),
                msv == member_list_view(members@),
                sym_pairs_view(flat@) == syms_to(msv, i as int) + member_sym_pairs(
                    msv[i as int],
                    i as int,
                    k as int,
                ),
                forall|k2: int| 0 <= k2 < flat@.len() ==> (#[trigger] flat@[k2]).1 < n,
            decreases sn - k,
        {
            let s = &members[i].symbols[k];
            let sc = crate::bytes::copy_range(s, 0, s.len());
            proof {
                assert(s@.subrange(0, s@.len() as int) =~= s@);
            }
            let ghost fpre = flat@;
            flat.push((sc, i));
            proof {
                let f = |p: (Vec<u8>, usize)| (p.0@, p.1 as int);
                fpre.lemma_push_map_commute(f, (sc, i));
                assert(sym_pairs_view(flat@) == sym_pairs_view(fpre).push(
                    (sc@, i as int),
                ));
                assert(sc@ == msv[i as int].symbols[k as int]);
                assert(member_sym_pairs(msv[i as int], i as int, k + 1)
                    == member_sym_pairs(msv[i as int], i as int, k as int).push(
                    (msv[i as int].symbols[k as int], i as int)));
                assert(sym_pairs_view(flat@) =~= syms_to(msv, i as int)
                    + member_sym_pairs(msv[i as int], i as int, k + 1));
            }
            k += 1;
        }
        proof {
            assert(sn as int == msv[i as int].symbols.len());
            assert(syms_to(msv, i + 1) == syms_to(msv, i as int) + member_sym_pairs(
                msv[i as int],
                i as int,
                msv[i as int].symbols.len() as int,
            ));
        }
        i += 1;
    }
    flat
}

/// Builds the symbol-name string pool: every symbol name, NUL-terminated.
fn build_symstr(flat: &Vec<(Vec<u8>, usize)>) -> (r: Vec<u8>)
    ensures
        r@ == symstr_to(sym_pairs_view(flat@), flat@.len() as int),
{
    let ghost ssv = sym_pairs_view(flat@);
    let mut out: Vec<u8> = Vec::new();
    let n = flat.len();
    let mut k: usize = 0;
    while k < n
        invariant
            0 <= k <= n == flat@.len(),
            ssv == sym_pairs_view(flat@),
            out@ == symstr_to(ssv, k as int),
        decreases n - k,
    {
        let s = &flat[k].0;
        crate::bytes::push_range(&mut out, s, 0, s.len());
        out.push(0u8);
        proof {
            assert(ssv[k as int].0 == flat@[k as int].0@);
            assert(s@.subrange(0, s@.len() as int) =~= s@);
            assert(out@ =~= symstr_to(ssv, k + 1));
        }
        k += 1;
    }
    out
}

/// Builds the GNU string table and, for each member, where its name begins
/// in it (zero for members whose names fit the header).
fn build_strtab(members: &Vec<NewArchiveMember>) -> (r: (Vec<u8>, Vec<u64>))
    ensures
        r.0@ == gnu_strtab(member_list_view(members@)),
        r.1@.len() == members@.len(),
        forall|i: int|
            0 <= i < members@.len() && !gnu_short(member_list_view(members@)[i].name)
                ==> (#[trigger] r.1@[i]) as nat == gnu_name_off(
                member_list_view(members@),
                i,
            ),
{
    let ghost msv = member_list_view(members@);
    let mut strtab: Vec<u8> = Vec::new();
    let mut offs: Vec<u64> = Vec::new();
    let n = members.len();
    let mut i: usize = 0;
    while i < n
        invariant
            0 <= i <= n == members@.len(),
            msv == member_list_view(members@),
            strtab@ == gnu_strtab_to(msv, i as int),
            offs@.len() == i,
            forall|j: int|
                0 <= j < i && !gnu_short(msv[j].name) ==> (#[trigger] offs@[j]) as nat
                    == gnu_name_off(msv, j),
        decreases n - i,
    {
        let m = &members[i];
        let nlen = m.member_name.len();
        let slash = crate::reader::find_slash(&m.member_name, 0, nlen);
        let is_short = nlen <= 15 && slash.is_none();
        proof {
            assert(m.member_name@.subrange(0, nlen as int) =~= m.member_name@);
            assert(msv[i as int].name == m.member_name@);
            assert(is_short == gnu_short(msv[i as int].name));
        }
        if is_short {
            offs.push(0u64);
            proof {
                assert(gnu_strtab_entry(msv[i as int]) =~= Seq::<u8>::empty());
                assert(strtab@ =~= gnu_strtab_to(msv, i + 1));
            }
        } else {
            offs.push(strtab.len() as u64);
            crate::bytes::push_range(&mut strtab, &m.member_name, 0, nlen);
            strtab.push(47u8);
            strtab.push(10u8);
            proof {
                assert(strtab@ =~= gnu_strtab_to(msv, i as int) + gnu_strtab_entry(
                    msv[i as int],
                ));
            }
        }
        i += 1;
    }
    (strtab, offs)
}

/// Appends the numeric tail of a member header.
fn push_header_tail(out: &mut Vec<u8>, mtime: u64, uid: u64, gid: u64, perms: u64, size: u64)
    requires
        (mtime as nat) < pow_b(10, 12),
        (uid as nat) < pow_b(10, 6),
        (gid as nat) < pow_b(10, 6),
        (perms as nat) < pow_b(8, 8),
        (size as nat) < pow_b(10, 10),
    ensures
        final(out)@ == old(out)@ + header_tail(
            mtime as nat,
            uid as nat,
            gid as nat,
            perms as nat,
            size as nat,
        ),
{
    crate::bytes::push_field(out, mtime, 10, 12);
    crate::bytes::push_field(out, uid, 10, 6);
    crate::bytes::push_field(out, gid, 10, 6);
    crate::bytes::push_field(out, perms, 8, 8);
    crate::bytes::push_field(out, size, 10, 10);
    out.push(96u8);
    out.push(10u8);
    proof {
        assert(out@ =~= old(out)@ + header_tail(
            mtime as nat,
            uid as nat,
            gid as nat,
            perms as nat,
            size as nat,
        ));
    }
}

/// Appends the 60-byte header and the content of member `i`. For a GNU long
/// name, `name_off` must be where the name begins in the string table.
fn push_member(
    out: &mut Vec<u8>,
    kind: ArchiveKind,
    members: &Vec<NewArchiveMember>,
    i: usize,
    name_off: u64,
)
    requires
        i < members@.len(),
        meta_ok(member_list_view(members@)[i as int]),
        member_size(kind, member_list_view(members@)[i as int]) <= 0xFFFFFFFF,
        kind is Gnu && !gnu_short(members@[i as int].member_name@) ==> name_off
            <= 0xFFFFFFFF && name_off as nat == gnu_name_off(
            member_list_view(members@),
            i as int,
        ),
    ensures
        final(out)@ == old(out)@ + member_block(
            kind,
            member_list_view(members@),
            i as int,
        ),
{
    let ghost msv = member_list_view(members@);
    let ghost seg0 = out@;
    let m = &members[i];
    proof {
        lemma_pow_vals();
        assert(msv[i as int] == members@[i as int]@);
        assert(msv[i as int].name == m.member_name@);
        assert(msv[i as int].data == m.buf@);
    }
    match kind {
        ArchiveKind::Gnu => {
            let nlen = m.member_name.len();
            let slash = crate::reader::find_slash(&m.member_name, 0, nlen);
            let is_short = nlen <= 15 && slash.is_none();
            proof {
                assert(m.member_name@.subrange(0, nlen as int) =~= m.member_name@);
                assert(is_short == gnu_short(msv[i as int].name));
            }
            if is_short {
                crate::bytes::push_range(out, &m.member_name, 0, nlen);
                out.push(47u8);
                proof {
                    assert(out@ =~= seg0 + m.member_name@ + seq![47u8] + spaces(0));
                }
                let mut k: usize = nlen + 1;
                while k < 16
                    invariant
                        nlen + 1 <= k <= 16,
                        out@ == seg0 + m.member_name@ + seq![47u8] + spaces(
                            (k - nlen - 1) as nat,
                        ),
                    decreases 16 - k,
                {
                    out.push(32u8);
                    proof {
                        assert(out@ =~= seg0 + m.member_name@ + seq![47u8] + spaces(
                            (k - nlen) as nat,
                        ));
                    }
                    k += 1;
                }
                proof {
                    assert(out@ =~= seg0 + gnu_name_field(msv, i as int));
                }
            } else {
                out.push(47u8);
                proof {
                    assert((name_off as nat) < pow_b(10, 15));
                }
                crate::bytes::push_field(out, name_off, 10, 15);
                proof {
                    assert(out@ =~= seg0 + gnu_name_field(msv, i as int));
                }
            }
            let size: u64 = m.buf.len() as u64;
            push_header_tail(out, m.mtime, m.uid as u64, m.gid as u64, m.perms as u64, size);
            crate::bytes::push_range(out, &m.buf, 0, m.buf.len());
            if size % 2 == 1 {
                out.push(10u8);
            }
            proof {
                assert(out@ =~= seg0 + member_block(kind, msv, i as int));
            }
        },
        ArchiveKind::Darwin => {
            out.push(35u8);
            out.push(49u8);
            out.push(47u8);
            let nlen: u64 = m.member_name.len() as u64;
            proof {
                assert((nlen as nat) < pow_b(10, 13));
            }
            crate::bytes::push_field(out, nlen, 10, 13);
            proof {
                assert(out@ =~= seg0 + bsd_name_field(msv[i as int].name));
            }
            let size: u64 = m.member_name.len() as u64 + m.buf.len() as u64;
            push_header_tail(out, m.mtime, m.uid as u64, m.gid as u64, m.perms as u64, size);
            crate::bytes::push_range(out, &m.member_name, 0, m.member_name.len());
            crate::bytes::push_range(out, &m.buf, 0, m.buf.len());
            if size % 2 == 1 {
                out.push(10u8);
            }
            proof {
                assert(out@ =~= seg0 + member_block(kind, msv, i as int));
            }
        },
    }
}

/// Appends the GNU string table member.
fn push_strtab(out: &mut Vec<u8>, strtab: &Vec<u8>, ghost_ms: Ghost<Seq<MemberView>>)
    requires
        strtab@ == gnu_strtab(ghost_ms@),
        strtab@.len() <= 0xFFFFFFFF,
    ensures
        final(out)@ == old(out)@ + strtab_block(ghost_ms@),
{
    let ghost seg0 = out@;
    proof {
        lemma_pow_vals();
    }
    out.push(47u8);
    out.push(47u8);
    let mut k: usize = 2;
    while k < 16
        invariant
            2 <= k <= 16,
            out@ == seg0 + seq![47u8, 47u8] + spaces((k - 2) as nat),
        decreases 16 - k,
    {
        out.push(32u8);
        proof {
            assert(out@ =~= seg0 + seq![47u8, 47u8] + spaces((k - 1) as nat));
        }
        k += 1;
    }
    let size: u64 = strtab.len() as u64;
    push_header_tail(out, 0, 0, 0, 0, size);
    crate::bytes::push_range(out, strtab, 0, strtab.len());
    if size % 2 == 1 {
        out.push(10u8);
    }
    proof {
        assert(out@ =~= seg0 + strtab_block(ghost_ms@));
    }
}

/// Appends the symbol table member.
#[verifier::rlimit(100)]
fn push_symtab(
    out: &mut Vec<u8>,
    kind: ArchiveKind,
    flat: &Vec<(Vec<u8>, usize)>,
    symstr: &Vec<u8>,
    moffs: &Vec<u64>,
    ssize: u64,
    ghost_ms: Ghost<Seq<MemberView>>,
)
    requires
        sym_pairs_view(flat@) == syms_of(ghost_ms@),
        symstr@ == symstr_to(syms_of(ghost_ms@), syms_of(ghost_ms@).len() as int),
        forall|j: int|
            0 <= j < moffs@.len() ==> (#[trigger] moffs@[j]) as nat == member_offset(
                kind,
                ghost_ms@,
                true,
                j,
            ) && moffs@[j] <= 0xFFFFFFFF,
        forall|k: int| 0 <= k < flat@.len() ==> (#[trigger] flat@[k]).1 < moffs@.len(),
        ssize as nat == symtab_size(kind, ghost_ms@),
        ssize <= 0xFFFFFFFF,
    ensures
        final(out)@ == old(out)@ + symtab_block(kind, ghost_ms@),
{
    let ghost msv = ghost_ms@;
    let ghost ssv = syms_of(msv);
    let ghost seg0 = out@;
    proof {
        lemma_pow_vals();
    }
    let n = flat.len();
    match kind {
        ArchiveKind::Gnu => {
            out.push(47u8);
            let mut k: usize = 1;
            while k < 16
                invariant
                    1 <= k <= 16,
                    out@ == seg0 + seq![47u8] + spaces((k - 1) as nat),
                decreases 16 - k,
            {
                out.push(32u8);
                proof {
                    assert(out@ =~= seg0 + seq![47u8] + spaces(k as nat));
                }
                k += 1;
            }
            push_header_tail(out, 0, 0, 0, 0, ssize);
            let ghost hdr_done = out@;
            proof {
                assert(hdr_done =~= seg0 + header_bytes(
                    seq![47u8] + spaces(15),
                    0,
                    0,
                    0,
                    0,
                    ssize as nat,
                ));
                assert(4 * n <= ssize);
            }
            push_u32be(out, n as u64);
            let mut k: usize = 0;
            while k < n
                invariant
                    0 <= k <= n == flat@.len(),
                    ssv == syms_of(msv),
                    sym_pairs_view(flat@) == ssv,
                    forall|j: int|
                        0 <= j < moffs@.len() ==> (#[trigger] moffs@[j]) as nat
                            == member_offset(ArchiveKind::Gnu, msv, true, j) && moffs@[j]
                            <= 0xFFFFFFFF,
                    forall|k2: int|
                        0 <= k2 < flat@.len() ==> (#[trigger] flat@[k2]).1
                            < moffs@.len(),
                    out@ == hdr_done + be32(flat@.len() as nat) + gnu_offs_to(
                        ArchiveKind::Gnu,
                        msv,
                        ssv,
                        k as int,
                    ),
                decreases n - k,
            {
                let idx = flat[k].1;
                push_u32be(out, moffs[idx]);
                proof {
                    assert(ssv[k as int].1 == flat@[k as int].1 as int);
                    assert(out@ =~= hdr_done + be32(flat@.len() as nat) + gnu_offs_to(
                        ArchiveKind::Gnu,
                        msv,
                        ssv,
                        k + 1,
                    ));
                }
                k += 1;
            }
            crate::bytes::push_range(out, symstr, 0, symstr.len());
            if ssize % 2 == 1 {
                out.push(10u8);
            }
            proof {
                assert(out@ =~= seg0 + symtab_block(kind, msv));
            }
        },
        ArchiveKind::Darwin => {
            out.push(35u8);
            out.push(49u8);
            out.push(47u8);
            crate::bytes::push_field(out, 9, 10, 13);
            proof {
                assert(symdef_seq().len() == 9);
                assert(out@ =~= seg0 + bsd_name_field(symdef_seq()));
            }
            push_header_tail(out, 0, 0, 0, 0, ssize);
            out.push(95u8);
            out.push(95u8);
            out.push(46u8);
            out.push(83u8);
            out.push(89u8);
            out.push(77u8);
            out.push(68u8);
            out.push(69u8);
            out.push(70u8);
            let ghost hdr_done = out@;
            proof {
                assert(hdr_done =~= seg0 + header_bytes(
                    bsd_name_field(symdef_seq()),
                    0,
                    0,
                    0,
                    0,
                    ssize as nat,
                ) + symdef_seq());
                assert(8 * n <= ssize);
            }
            push_u32le(out, 8 * (n as u64));
            let mut k: usize = 0;
            let mut stroff: u64 = 0;
            while k < n
                invariant
                    0 <= k <= n == flat@.len(),
                    ssv == syms_of(msv),
                    sym_pairs_view(flat@) == ssv,
                    symstr@ == symstr_to(ssv, ssv.len() as int),
                    symstr@.len() <= ssize <= 0xFFFFFFFF,
                    forall|j: int|
                        0 <= j < moffs@.len() ==> (#[trigger] moffs@[j]) as nat
                            == member_offset(ArchiveKind::Darwin, msv, true, j)
                            && moffs@[j] <= 0xFFFFFFFF,
                    forall|k2: int|
                        0 <= k2 < flat@.len() ==> (#[trigger] flat@[k2]).1
                            < moffs@.len(),
                    stroff as nat == symstr_to(ssv, k as int).len(),
                    out@ == hdr_done + le32(8 * flat@.len() as nat) + darwin_ranlib_to(
                        msv,
                        ssv,
                        k as int,
                    ),
                decreases n - k,
            {
                proof {
                    lemma_symstr_mono(ssv, k as int, ssv.len() as int);
                }
                let idx = flat[k].1;
                push_u32le(out, stroff);
                push_u32le(out, moffs[idx]);
                proof {
                    assert(ssv[k as int].1 == flat@[k as int].1 as int);
                    assert(out@ =~= hdr_done + le32(8 * flat@.len() as nat)
                        + darwin_ranlib_to(msv, ssv, k + 1));
                    assert(ssv[k as int].0 == flat@[k as int].0@);
                    lemma_symstr_mono(ssv, k + 1, ssv.len() as int);
                    assert(symstr_to(ssv, k + 1).len() == stroff + ssv[k as int].0.len()
                        + 1);
                }
                stroff = stroff + flat[k].0.len() as u64 + 1;
                k += 1;
            }
            push_u32le(out, symstr.len() as u64);
            crate::bytes::push_range(out, symstr, 0, symstr.len());
            if ssize % 2 == 1 {
                out.push(10u8);
            }
            proof {
                assert(out@ =~= seg0 + symtab_block(kind, msv));
            }
        },
    }
}

/// Serializes the members into an archive of the requested layout, in input
/// order, with a symbol table if `symtab` is set. Returns exactly the bytes
/// [`archive_bytes`] describes; fails exactly when the members cannot be
/// represented: metadata out of field range, or an archive over 4 GiB.
#[verifier::rlimit(100)]
pub fn write_archive(
    members: &Vec<NewArchiveMember>,
    kind: ArchiveKind,
    symtab: bool,
) -> (r: Result<Vec<u8>, WriteError>)
    ensures
        match r {
            Ok(out) => representable(kind, member_list_view(members@), symtab) && out@
                == archive_bytes(kind, member_list_view(members@), symtab),
            Err(WriteError::FieldOverflow) => !all_meta_ok(member_list_view(members@)),
            Err(WriteError::TooLarge) => all_meta_ok(member_list_view(members@))
                && total_len(kind, member_list_view(members@), symtab) > 0xFFFFFFFF,
        },
{
    let ghost msv = member_list_view(members@);
    let n = members.len();
    // metadata must fit the fixed-width header fields
    let mut i: usize = 0;
    while i < n
        invariant
            0 <= i <= n == members@.len(),
            msv == member_list_view(members@),
            forall|j: int| 0 <= j < i ==> meta_ok(#[trigger] msv[j]),
        decreases n - i,
    {
        let m = &members[i];
        proof {
            lemma_pow_vals();
            assert(msv[i as int] == members@[i as int]@);
        }
        if m.mtime >= 1000000000000u64 || m.uid >= 1000000u32 || m.gid >= 1000000u32
            || m.perms >= 16777216u32 {
            proof {
                assert(!meta_ok(msv[i as int]));
            }
            return Err(WriteError::FieldOverflow);
        }
        i += 1;
    }
    proof {
        assert(all_meta_ok(msv));
    }
    // symbol list and string pool
    let mut flat: Vec<(Vec<u8>, usize)> = Vec::new();
    let mut symstr: Vec<u8> = Vec::new();
    if symtab {
        flat = flatten_symbols(members);
        symstr = build_symstr(&flat);
    }
    // GNU string table
    let mut strtab: Vec<u8> = Vec::new();
    let mut name_offs: Vec<u64> = Vec::new();
    let is_gnu = match kind {
        ArchiveKind::Gnu => true,
        ArchiveKind::Darwin => false,
    };
    if is_gnu {
        let p = build_strtab(members);
        strtab = p.0;
        name_offs = p.1;
    }
    // sizes; any block over 4 GiB makes the whole archive over 4 GiB
    if symtab && flat.len() as u64 > 0xFFFFFFFF {
        return Err(WriteError::TooLarge);
    }
    if symtab && symstr.len() as u64 > 0xFFFFFFFF {
        return Err(WriteError::TooLarge);
    }
    let ssize: u64 = if symtab {
        match kind {
            ArchiveKind::Gnu => 4 + 4 * (flat.len() as u64) + symstr.len() as u64,
            ArchiveKind::Darwin => 17 + 8 * (flat.len() as u64) + symstr.len() as u64,
        }
    } else {
        0
    };
    proof {
        if symtab {
            assert(ssize as nat == symtab_size(kind, msv));
        }
    }
    if symtab && ssize > 0xFFFFFFFF {
        return Err(WriteError::TooLarge);
    }
    if is_gnu && strtab.len() as u64 > 0xFFFFFFFF {
        return Err(WriteError::TooLarge);
    }
    let stb: u64 = if symtab {
        60 + ssize + ssize % 2
    } else {
        0
    };
    let strb: u64 = if is_gnu && strtab.len() > 0 {
        60 + strtab.len() as u64 + (strtab.len() as u64) % 2
    } else {
        0
    };
    proof {
        assert(stb as nat == symtab_block_len(kind, msv, symtab));
        assert(strb as nat == strtab_block_len(kind, msv));
    }
    // member offsets
    let mut acc: u64 = 8 + stb + strb;
    let mut moffs: Vec<u64> = Vec::new();
    let mut i: usize = 0;
    while i < n
        invariant
            0 <= i <= n == members@.len(),
            msv == member_list_view(members@),
            all_meta_ok(msv),
            stb as nat == symtab_block_len(kind, msv, symtab),
            strb as nat == strtab_block_len(kind, msv),
            acc as nat == member_offset(kind, msv, symtab, i as int),
            acc <= 0x200000100u64,
            moffs@.len() == i,
            forall|j: int|
                0 <= j < i ==> (#[trigger] moffs@[j]) as nat == member_offset(
                    kind,
                    msv,
                    symtab,
                    j,
                ) && moffs@[j] <= 0xFFFFFFFF,
            forall|j: int|
                0 <= j < i ==> member_size(kind, msv[j]) <= 0xFFFFFFFF,
        decreases n - i,
    {
        proof {
            lemma_members_len_mono(kind, msv, i as int, n as int);
        }
        if acc > 0xFFFFFFFF {
            return Err(WriteError::TooLarge);
        }
        moffs.push(acc);
        let m = &members[i];
        proof {
            assert(msv[i as int] == members@[i as int]@);
            lemma_members_len_mono(kind, msv, i + 1, n as int);
        }
        let msize: u64 = match kind {
            ArchiveKind::Gnu => {
                if m.buf.len() as u64 > 0xFFFFFFFF {
                    proof {
                        assert(member_size(kind, msv[i as int]) >= m.buf@.len());
                        assert(members_len_to(kind, msv, i + 1) == members_len_to(
                            kind,
                            msv,
                            i as int,
                        ) + member_block_len(kind, msv[i as int]));
                    }
                    return Err(WriteError::TooLarge);
                }
                m.buf.len() as u64
            },
            ArchiveKind::Darwin => {
                if m.buf.len() as u64 > 0xFFFFFFFF || m.member_name.len() as u64
                    > 0xFFFFFFFF {
                    proof {
                        assert(member_size(kind, msv[i as int]) >= m.buf@.len()
                            && member_size(kind, msv[i as int])
                            >= m.member_name@.len());
                        assert(members_len_to(kind, msv, i + 1) == members_len_to(
                            kind,
                            msv,
                            i as int,
                        ) + member_block_len(kind, msv[i as int]));
                    }
                    return Err(WriteError::TooLarge);
                }
                m.member_name.len() as u64 + m.buf.len() as u64
            },
        };
        if msize > 0xFFFFFFFF {
            proof {
                assert(msize as nat == member_size(kind, msv[i as int]));
                assert(members_len_to(kind, msv, i + 1) == members_len_to(
                    kind,
                    msv,
                    i as int,
                ) + member_block_len(kind, msv[i as int]));
            }
            return Err(WriteError::TooLarge);
        }
        proof {
            assert(msize as nat == member_size(kind, msv[i as int]));
            assert(member_offset(kind, msv, symtab, i + 1) == member_offset(
                kind,
                msv,
                symtab,
                i as int,
            ) + member_block_len(kind, msv[i as int]));
        }
        acc = acc + 60 + msize + msize % 2;
        i += 1;
    }
    if acc > 0xFFFFFFFF {
        return Err(WriteError::TooLarge);
    }
    proof {
        assert(acc as nat == total_len(kind, msv, symtab));
        assert(representable(kind, msv, symtab));
    }
    // assembly
    let mut out: Vec<u8> = Vec::new();
    out.push(33u8);
    out.push(60u8);
    out.push(97u8);
    out.push(114u8);
    out.push(99u8);
    out.push(104u8);
    out.push(62u8);
    out.push(10u8);
    proof {
        assert(out@ =~= crate::reader::magic());
    }
    if symtab {
        push_symtab(&mut out, kind, &flat, &symstr, &moffs, ssize, Ghost(msv));
    }
    let ghost after_sym = crate::reader::magic() + (if symtab {
        symtab_block(kind, msv)
    } else {
        Seq::<u8>::empty()
    });
    proof {
        assert(out@ =~= after_sym);
    }
    if is_gnu && strtab.len() > 0 {
        push_strtab(&mut out, &strtab, Ghost(msv));
    }
    let ghost after_str = after_sym + (if kind is Gnu && gnu_strtab(msv).len() > 0 {
        strtab_block(msv)
    } else {
        Seq::<u8>::empty()
    });
    proof {
        assert(out@ =~= after_str);
    }
    let mut i: usize = 0;
    while i < n
        invariant
            0 <= i <= n == members@.len(),
            msv == member_list_view(members@),
            all_meta_ok(msv),
            is_gnu == kind is Gnu,
            strtab@ == gnu_strtab(msv) || !is_gnu,
            name_offs@.len() == n || !is_gnu,
            strtab@.len() <= 0xFFFFFFFF,
            forall|j: int|
                0 <= j < n && is_gnu && !gnu_short(msv[j].name) ==> (
                #[trigger] name_offs@[j]) as nat == gnu_name_off(msv, j),
            forall|j: int| 0 <= j < n ==> member_size(kind, msv[j]) <= 0xFFFFFFFF,
            out@ == after_str + members_bytes_to(kind, msv, i as int),
        decreases n - i,
    {
        let noff: u64 = if is_gnu {
            name_offs[i]
        } else {
            0
        };
        proof {
            if is_gnu && !gnu_short(msv[i as int].name) {
                lemma_strtab_mono(msv, i as int, n as int);
                assert(gnu_name_off(msv, i as int) <= gnu_strtab(msv).len());
            }
            assert(msv[i as int].name == members@[i as int].member_name@);
        }
        push_member(&mut out, kind, members, i, noff);
        proof {
            assert(out@ =~= after_str + members_bytes_to(kind, msv, i + 1));
        }
        i += 1;
    }
    proof {
        assert(out@ =~= archive_bytes(kind, msv, symtab));
    }
    Ok(out)
}

} // verus!
