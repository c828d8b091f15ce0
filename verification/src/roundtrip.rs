//! The round-trip law: the reader inverts the writer. For any representable
//! member list, parsing the archive the writer produces yields one member per
//! input member, in the same order, with the same name, whose byte range
//! holds exactly the input member's content — so the multiset of
//! (name, content) pairs is preserved. It is proved for the Darwin layout,
//! whose `#1/<len>` name encoding is uniform over all names, and for the GNU
//! layout for the names the header itself can store; GNU long names go
//! through the string table, which the round-trip tests cover.

use vstd::prelude::*;

use crate::ArchiveKind;
use crate::bytes::{lemma_parse_padded_field, padded_field, parse_num, pow_b, spaces};
use crate::reader::{
    bsd_long_name, gnu_strtab_name, gnu_symtab_name, magic, parse_members, parse_spec,
    symdef_name, MemberModel, ParseError,
};
use crate::writer::{
    archive_bytes, darwin_ranlib_to, darwin_symtab_content, header_bytes,
    lemma_members_len_mono, lemma_pow_vals, member_block, member_block_len, member_offset,
    member_size, members_bytes_to, members_len_to, bsd_name_field, pad_of, representable,
    gnu_short, strtab_block_len, symdef_seq, symtab_block, symtab_block_len, symtab_size, syms_of,
    symstr_to, total_len, MemberView,
};

verus! {

/// The bytes of the members from `i` on.
pub open spec fn members_bytes_from(kind: ArchiveKind, ms: Seq<MemberView>, i: int) -> Seq<
    u8,
>
    decreases ms.len() - i,
{
    if i < 0 || i >= ms.len() {
        Seq::empty()
    } else {
        member_block(kind, ms, i) + members_bytes_from(kind, ms, i + 1)
    }
}

/// All members split at `i`: the first `i`, then the rest.
proof fn lemma_to_from_split(kind: ArchiveKind, ms: Seq<MemberView>, i: int)
    requires
        0 <= i <= ms.len(),
    ensures
        members_bytes_to(kind, ms, ms.len() as int) == members_bytes_to(kind, ms, i)
            + members_bytes_from(kind, ms, i),
    decreases ms.len() - i,
{
    if i == ms.len() {
        assert(members_bytes_to(kind, ms, i) + members_bytes_from(kind, ms, i)
            =~= members_bytes_to(kind, ms, i));
    } else {
        lemma_to_from_split(kind, ms, i + 1);
        assert(members_bytes_to(kind, ms, i + 1) == members_bytes_to(kind, ms, i)
            + member_block(kind, ms, i));
        assert(members_bytes_to(kind, ms, i) + members_bytes_from(kind, ms, i)
            =~= members_bytes_to(kind, ms, i + 1) + members_bytes_from(kind, ms, i + 1));
    }
}

/// The pieces of a header, as the parser reads them back.
proof fn lemma_header_parts(
    namef: Seq<u8>,
    mtime: nat,
    uid: nat,
    gid: nat,
    perms: nat,
    size: nat,
)
    requires
        namef.len() == 16,
        mtime < pow_b(10, 12),
        uid < pow_b(10, 6),
        gid < pow_b(10, 6),
        perms < pow_b(8, 8),
        size < pow_b(10, 10),
    ensures
        header_bytes(namef, mtime, uid, gid, perms, size).len() == 60,
        header_bytes(namef, mtime, uid, gid, perms, size)[58] == 96,
        header_bytes(namef, mtime, uid, gid, perms, size)[59] == 10,
        header_bytes(namef, mtime, uid, gid, perms, size).subrange(0, 16) == namef,
        parse_num(
            header_bytes(namef, mtime, uid, gid, perms, size).subrange(48, 58),
            10,
        ) == Some(size),
{
    lemma_parse_padded_field(mtime, 10, 12);
    lemma_parse_padded_field(uid, 10, 6);
    lemma_parse_padded_field(gid, 10, 6);
    lemma_parse_padded_field(perms, 8, 8);
    lemma_parse_padded_field(size, 10, 10);
    let h = header_bytes(namef, mtime, uid, gid, perms, size);
    assert(h.len() == 60);
    assert(h.subrange(0, 16) =~= namef);
    assert(h.subrange(48, 58) =~= padded_field(size, 10, 10));
    assert(h.subrange(58, 60) =~= seq![96u8, 10u8]);
    assert(h[58] == h.subrange(58, 60)[0]);
    assert(h[59] == h.subrange(58, 60)[1]);
}

/// The BSD name field, as the parser classifies and reads it back.
proof fn lemma_bsd_name_field(name: Seq<u8>)
    requires
        name.len() < pow_b(10, 13),
    ensures
        bsd_name_field(name).len() == 16,
        bsd_long_name(bsd_name_field(name)),
        !gnu_symtab_name(bsd_name_field(name)),
        !gnu_strtab_name(bsd_name_field(name)),
        parse_num(bsd_name_field(name).subrange(3, 16), 10) == Some(name.len()),
{
    lemma_parse_padded_field(name.len(), 10, 13);
    let nf = bsd_name_field(name);
    assert(nf.len() == 16);
    assert(nf[0] == 35 && nf[1] == 49 && nf[2] == 47);
    assert(nf.subrange(3, 16) =~= padded_field(name.len(), 10, 13));
}

/// Under representability, every member's fields fit their bounds.
proof fn lemma_member_bounds(ms: Seq<MemberView>, symtab: bool, i: int)
    requires
        representable(ArchiveKind::Darwin, ms, symtab),
        0 <= i < ms.len(),
    ensures
        member_size(ArchiveKind::Darwin, ms[i]) <= 0xFFFFFFFF,
        ms[i].name.len() <= 0xFFFFFFFF,
        crate::writer::meta_ok(ms[i]),
{
    lemma_members_len_mono(ArchiveKind::Darwin, ms, i + 1, ms.len() as int);
    assert(members_len_to(ArchiveKind::Darwin, ms, i + 1) == members_len_to(
        ArchiveKind::Darwin,
        ms,
        i,
    ) + member_block_len(ArchiveKind::Darwin, ms[i]));
    assert(member_block_len(ArchiveKind::Darwin, ms[i]) <= total_len(
        ArchiveKind::Darwin,
        ms,
        symtab,
    ));
}

/// A Darwin member block is as long as `member_block_len` says.
proof fn lemma_block_len_darwin(ms: Seq<MemberView>, symtab: bool, i: int)
    requires
        representable(ArchiveKind::Darwin, ms, symtab),
        0 <= i < ms.len(),
    ensures
        member_block(ArchiveKind::Darwin, ms, i).len() == member_block_len(
            ArchiveKind::Darwin,
            ms[i],
        ),
{
    lemma_member_bounds(ms, symtab, i);
    lemma_pow_vals();
    let m = ms[i];
    let sz = member_size(ArchiveKind::Darwin, m);
    lemma_bsd_name_field(m.name);
    lemma_header_parts(bsd_name_field(m.name), m.mtime, m.uid, m.gid, m.perms, sz);
}

/// The bytes the first `i` member blocks take.
proof fn lemma_to_len(ms: Seq<MemberView>, symtab: bool, i: int)
    requires
        representable(ArchiveKind::Darwin, ms, symtab),
        0 <= i <= ms.len(),
    ensures
        members_bytes_to(ArchiveKind::Darwin, ms, i).len() == members_len_to(
            ArchiveKind::Darwin,
            ms,
            i,
        ),
    decreases i,
{
    if i > 0 {
        lemma_to_len(ms, symtab, i - 1);
        lemma_block_len_darwin(ms, symtab, i - 1);
    }
}

/// The ranlib table is eight bytes per symbol.
proof fn lemma_ranlib_len(ms: Seq<MemberView>, ss: Seq<(Seq<u8>, int)>, k: int)
    requires
        k >= 0,
    ensures
        darwin_ranlib_to(ms, ss, k).len() == 8 * k,
    decreases k,
{
    if k > 0 {
        lemma_ranlib_len(ms, ss, k - 1);
    }
}

/// The Darwin symbol table block is as long as `symtab_block_len` says.
proof fn lemma_symtab_block_len_darwin(ms: Seq<MemberView>, symtab: bool)
    requires
        representable(ArchiveKind::Darwin, ms, symtab),
        symtab,
    ensures
        symtab_block(ArchiveKind::Darwin, ms).len() == symtab_block_len(
            ArchiveKind::Darwin,
            ms,
            symtab,
        ),
        symtab_size(ArchiveKind::Darwin, ms) < pow_b(10, 10),
{
    lemma_pow_vals();
    let ssize = symtab_size(ArchiveKind::Darwin, ms);
    assert(symtab_block_len(ArchiveKind::Darwin, ms, symtab) <= total_len(
        ArchiveKind::Darwin,
        ms,
        symtab,
    ));
    assert(symdef_seq().len() == 9);
    lemma_bsd_name_field(symdef_seq());
    lemma_header_parts(bsd_name_field(symdef_seq()), 0, 0, 0, 0, ssize);
    let ss = syms_of(ms);
    lemma_ranlib_len(ms, ss, ss.len() as int);
    assert(darwin_symtab_content(ms).len() == 4 + 8 * ss.len() + 4 + symstr_to(
        ss,
        ss.len() as int,
    ).len());
}

/// What the parser reports for member `i`: its name, and the byte range of
/// its content within the archive.
pub open spec fn parsed_model(ms: Seq<MemberView>, symtab: bool, i: int) -> MemberModel {
    MemberModel {
        name: ms[i].name,
        start: member_offset(ArchiveKind::Darwin, ms, symtab, i) as int + 60 + ms[i].name.len(),
        end: member_offset(ArchiveKind::Darwin, ms, symtab, i) as int + 60 + member_size(
            ArchiveKind::Darwin,
            ms[i],
        ),
    }
}

/// The suffix of the archive from member `i`'s header on holds the blocks of
/// members `i` on.
proof fn lemma_suffix_at(ms: Seq<MemberView>, symtab: bool, i: int)
    requires
        representable(ArchiveKind::Darwin, ms, symtab),
        0 <= i <= ms.len(),
    ensures
        archive_bytes(ArchiveKind::Darwin, ms, symtab).len() == total_len(
            ArchiveKind::Darwin,
            ms,
            symtab,
        ),
        archive_bytes(ArchiveKind::Darwin, ms, symtab).subrange(
            member_offset(ArchiveKind::Darwin, ms, symtab, i) as int,
            total_len(ArchiveKind::Darwin, ms, symtab) as int,
        ) == members_bytes_from(ArchiveKind::Darwin, ms, i),
{
    let d = archive_bytes(ArchiveKind::Darwin, ms, symtab);
    let stb: Seq<u8> = if symtab {
        symtab_block(ArchiveKind::Darwin, ms)
    } else {
        Seq::empty()
    };
    assert(strtab_block_len(ArchiveKind::Darwin, ms) == 0);
    assert(d == magic() + stb + Seq::<u8>::empty() + members_bytes_to(
        ArchiveKind::Darwin,
        ms,
        ms.len() as int,
    ));
    if symtab {
        lemma_symtab_block_len_darwin(ms, symtab);
    }
    assert(stb.len() == symtab_block_len(ArchiveKind::Darwin, ms, symtab));
    lemma_to_len(ms, symtab, ms.len() as int);
    lemma_to_len(ms, symtab, i);
    lemma_to_from_split(ArchiveKind::Darwin, ms, i);
    assert(d.len() == total_len(ArchiveKind::Darwin, ms, symtab));
    assert(d =~= magic() + stb + members_bytes_to(ArchiveKind::Darwin, ms, i)
        + members_bytes_from(ArchiveKind::Darwin, ms, i));
    assert(d.subrange(
        member_offset(ArchiveKind::Darwin, ms, symtab, i) as int,
        total_len(ArchiveKind::Darwin, ms, symtab) as int,
    ) =~= members_bytes_from(ArchiveKind::Darwin, ms, i));
}

/// Parsing from member `i`'s header yields exactly the models of members
/// `i` on, whatever string table has been seen.
#[verifier::rlimit(100)]
proof fn lemma_parse_suffix(
    d: Seq<u8>,
    ms: Seq<MemberView>,
    symtab: bool,
    st: Option<Seq<u8>>,
    i: int,
)
    requires
        representable(ArchiveKind::Darwin, ms, symtab),
        forall|j: int| 0 <= j < ms.len() ==> !symdef_name((#[trigger] ms[j]).name),
        0 <= i <= ms.len(),
        d.len() == total_len(ArchiveKind::Darwin, ms, symtab),
        d.subrange(member_offset(ArchiveKind::Darwin, ms, symtab, i) as int, d.len() as int)
            == members_bytes_from(ArchiveKind::Darwin, ms, i),
    ensures
        parse_members(d, member_offset(ArchiveKind::Darwin, ms, symtab, i) as int, st)
            == Ok::<Seq<MemberModel>, ParseError>(
            Seq::new((ms.len() - i) as nat, |k: int| parsed_model(ms, symtab, i + k)),
        ),
    decreases ms.len() - i,
{
    let pos = member_offset(ArchiveKind::Darwin, ms, symtab, i) as int;
    if i == ms.len() {
        assert(pos == d.len());
        assert(Seq::new(0, |k: int| parsed_model(ms, symtab, i + k)) =~= Seq::<
            MemberModel,
        >::empty());
    } else {
        lemma_member_bounds(ms, symtab, i);
        lemma_block_len_darwin(ms, symtab, i);
        lemma_pow_vals();
        let m = ms[i];
        let sz = member_size(ArchiveKind::Darwin, m);
        let nlen = m.name.len() as int;
        lemma_bsd_name_field(m.name);
        lemma_header_parts(bsd_name_field(m.name), m.mtime, m.uid, m.gid, m.perms, sz);
        let hdr_spec = header_bytes(bsd_name_field(m.name), m.mtime, m.uid, m.gid, m.perms, sz);
        let blk = member_block(ArchiveKind::Darwin, ms, i);
        assert(blk == hdr_spec + m.name + m.data + pad_of(sz));
        let sfx = d.subrange(pos, d.len() as int);
        assert(sfx == blk + members_bytes_from(ArchiveKind::Darwin, ms, i + 1));
        // position facts
        assert(member_offset(ArchiveKind::Darwin, ms, symtab, i + 1) == pos + blk.len()) by {
            assert(members_len_to(ArchiveKind::Darwin, ms, i + 1) == members_len_to(
                ArchiveKind::Darwin,
                ms,
                i,
            ) + member_block_len(ArchiveKind::Darwin, ms[i]));
        }
        let next_off = pos + blk.len();
        assert(next_off <= d.len()) by {
            lemma_members_len_mono(ArchiveKind::Darwin, ms, i + 1, ms.len() as int);
        }
        // header bytes stand at pos
        let hdr = d.subrange(pos, pos + 60);
        assert(hdr =~= hdr_spec);
        assert(hdr[58] == 96 && hdr[59] == 10);
        assert(hdr.subrange(48, 58) =~= hdr_spec.subrange(48, 58));
        assert(parse_num(hdr.subrange(48, 58), 10) == Some(sz));
        let start0 = pos + 60;
        let end0 = start0 + sz;
        assert(end0 <= d.len());
        // padding: the next header begins exactly at the next offset
        let next = if sz % 2 == 1 && end0 < d.len() {
            end0 + 1
        } else {
            end0
        };
        assert(next == next_off) by {
            if sz % 2 == 1 {
                assert(pad_of(sz).len() == 1);
                assert(next_off == end0 + 1);
            } else {
                assert(pad_of(sz).len() == 0);
            }
        }
        // name field dispatch
        let nf = hdr.subrange(0, 16);
        assert(nf =~= bsd_name_field(m.name));
        assert(!gnu_symtab_name(nf) && !gnu_strtab_name(nf) && bsd_long_name(nf));
        assert(nf.subrange(3, 16) =~= bsd_name_field(m.name).subrange(3, 16));
        assert(parse_num(nf.subrange(3, 16), 10) == Some(m.name.len()));
        assert(nlen <= sz);
        // the name and the content stand where the block puts them
        let pname = d.subrange(start0, start0 + nlen);
        assert(pname =~= m.name) by {
            assert(forall|j: int| 0 <= j < nlen ==> pname[j] == sfx[60 + j]);
            assert(forall|j: int| 0 <= j < nlen ==> blk[60 + j] == m.name[j]);
        }
        assert(!symdef_name(pname));
        // the rest parses by induction
        assert(d.subrange(next_off, d.len() as int) =~= sfx.subrange(
            blk.len() as int,
            sfx.len() as int,
        ));
        assert(sfx.subrange(blk.len() as int, sfx.len() as int) =~= members_bytes_from(
            ArchiveKind::Darwin,
            ms,
            i + 1,
        ));
        lemma_parse_suffix(d, ms, symtab, st, i + 1);
        let rest = Seq::new((ms.len() - i - 1) as nat, |k: int| parsed_model(ms, symtab, i + 1 + k));
        assert(parse_members(d, pos, st) == Ok::<Seq<MemberModel>, ParseError>(
            seq![
                MemberModel { name: pname, start: start0 + nlen, end: end0 },
            ] + rest,
        ));
        assert(MemberModel { name: pname, start: start0 + nlen, end: end0 } == parsed_model(
            ms,
            symtab,
            i,
        ));
        assert(seq![parsed_model(ms, symtab, i)] + rest =~= Seq::new(
            (ms.len() - i) as nat,
            |k: int| parsed_model(ms, symtab, i + k),
        ));
    }
}

/// The law: parsing what the writer wrote reproduces the members. For any
/// representable member list whose names do not begin with `__.SYMDEF` (that
/// name is the symbol table's own and is consumed, not reported), parsing the
/// Darwin archive of the list yields one parsed member per input member, in
/// the same order, bearing the same name, whose byte range holds exactly the
/// member's content — the same sequence, hence the same multiset, of
/// (name, content) pairs.
#[verifier::rlimit(100)]
pub proof fn lemma_darwin_round_trip(ms: Seq<MemberView>, symtab: bool)
    requires
        representable(ArchiveKind::Darwin, ms, symtab),
        forall|j: int| 0 <= j < ms.len() ==> !symdef_name((#[trigger] ms[j]).name),
    ensures
        parse_spec(archive_bytes(ArchiveKind::Darwin, ms, symtab)) == Ok::<
            Seq<MemberModel>,
            ParseError,
        >(Seq::new(ms.len(), |i: int| parsed_model(ms, symtab, i))),
        forall|i: int|
            0 <= i < ms.len() ==> parsed_model(ms, symtab, i).name == ms[i].name
                && archive_bytes(ArchiveKind::Darwin, ms, symtab).subrange(
                parsed_model(ms, symtab, i).start,
                parsed_model(ms, symtab, i).end,
            ) == ms[i].data,
{
    let d = archive_bytes(ArchiveKind::Darwin, ms, symtab);
    lemma_suffix_at(ms, symtab, 0);
    lemma_pow_vals();
    // the magic stands first
    assert(d.len() >= 8);
    assert(d.subrange(0, 8) =~= magic());
    // with a symbol table, its member is parsed and skipped
    if symtab {
        lemma_symtab_block_len_darwin(ms, symtab);
        let ssize = symtab_size(ArchiveKind::Darwin, ms);
        assert(symdef_seq().len() == 9);
        lemma_bsd_name_field(symdef_seq());
        lemma_header_parts(bsd_name_field(symdef_seq()), 0, 0, 0, 0, ssize);
        let hdr_spec = header_bytes(bsd_name_field(symdef_seq()), 0, 0, 0, 0, ssize);
        let stb = symtab_block(ArchiveKind::Darwin, ms);
        assert(stb == hdr_spec + symdef_seq() + darwin_symtab_content(ms) + pad_of(ssize));
        let off0 = member_offset(ArchiveKind::Darwin, ms, symtab, 0) as int;
        assert(off0 == 8 + stb.len());
        let hdr = d.subrange(8, 68);
        assert(hdr =~= hdr_spec) by {
            assert(d == magic() + stb + Seq::<u8>::empty() + members_bytes_to(
                ArchiveKind::Darwin,
                ms,
                ms.len() as int,
            ));
        }
        assert(hdr[58] == 96 && hdr[59] == 10);
        assert(hdr.subrange(48, 58) =~= hdr_spec.subrange(48, 58));
        assert(parse_num(hdr.subrange(48, 58), 10) == Some(ssize));
        let start0 = 68int;
        let end0 = start0 + ssize;
        assert(end0 <= d.len());
        let next = if ssize % 2 == 1 && end0 < d.len() {
            end0 + 1
        } else {
            end0
        };
        assert(next == off0) by {
            if ssize % 2 == 1 {
                assert(pad_of(ssize).len() == 1);
            } else {
                assert(pad_of(ssize).len() == 0);
            }
        }
        let nf = hdr.subrange(0, 16);
        assert(nf =~= bsd_name_field(symdef_seq()));
        assert(!gnu_symtab_name(nf) && !gnu_strtab_name(nf) && bsd_long_name(nf));
        assert(nf.subrange(3, 16) =~= bsd_name_field(symdef_seq()).subrange(3, 16));
        assert(parse_num(nf.subrange(3, 16), 10) == Some(9nat));
        assert(9 <= ssize);
        let pname = d.subrange(start0, start0 + 9);
        assert(pname =~= symdef_seq()) by {
            assert(d == magic() + stb + Seq::<u8>::empty() + members_bytes_to(
                ArchiveKind::Darwin,
                ms,
                ms.len() as int,
            ));
        }
        assert(symdef_name(pname));
        lemma_parse_suffix(d, ms, symtab, None, 0);
        assert(parse_members(d, 8, None) == parse_members(d, off0, None));
    } else {
        assert(member_offset(ArchiveKind::Darwin, ms, symtab, 0) == 8);
        lemma_parse_suffix(d, ms, symtab, None, 0);
    }
    assert(Seq::new((ms.len() - 0) as nat, |k: int| parsed_model(ms, symtab, 0 + k)) =~= Seq::new(
        ms.len(),
        |i: int| parsed_model(ms, symtab, i),
    ));
    // each parsed range holds exactly the member's content
    assert forall|i: int| 0 <= i < ms.len() implies parsed_model(ms, symtab, i).name == ms[i].name
        && d.subrange(parsed_model(ms, symtab, i).start, parsed_model(ms, symtab, i).end) == ms[
        i
    ].data by {
        lemma_content_at(ms, symtab, i);
    }
}

/// The byte range the parser reports for member `i` holds exactly the
/// member's content.
#[verifier::rlimit(100)]
proof fn lemma_content_at(ms: Seq<MemberView>, symtab: bool, i: int)
    requires
        representable(ArchiveKind::Darwin, ms, symtab),
        0 <= i < ms.len(),
    ensures
        archive_bytes(ArchiveKind::Darwin, ms, symtab).subrange(
            parsed_model(ms, symtab, i).start,
            parsed_model(ms, symtab, i).end,
        ) == ms[i].data,
{
    let d = archive_bytes(ArchiveKind::Darwin, ms, symtab);
    lemma_suffix_at(ms, symtab, i);
    lemma_member_bounds(ms, symtab, i);
    lemma_block_len_darwin(ms, symtab, i);
    lemma_pow_vals();
    lemma_bsd_name_field(ms[i].name);
    let pos = member_offset(ArchiveKind::Darwin, ms, symtab, i) as int;
    lemma_members_len_mono(ArchiveKind::Darwin, ms, i, ms.len() as int);
    lemma_members_len_mono(ArchiveKind::Darwin, ms, i + 1, ms.len() as int);
    assert(members_len_to(ArchiveKind::Darwin, ms, i + 1) == members_len_to(
        ArchiveKind::Darwin,
        ms,
        i,
    ) + member_block_len(ArchiveKind::Darwin, ms[i]));
    assert(pos + member_block_len(ArchiveKind::Darwin, ms[i]) <= d.len());
    let sfx = d.subrange(pos, d.len() as int);
    let blk = member_block(ArchiveKind::Darwin, ms, i);
    assert(sfx == blk + members_bytes_from(ArchiveKind::Darwin, ms, i + 1));
    let nlen = ms[i].name.len() as int;
    let dlen = ms[i].data.len() as int;
    let sz = member_size(ArchiveKind::Darwin, ms[i]);
    lemma_header_parts(
        bsd_name_field(ms[i].name),
        ms[i].mtime,
        ms[i].uid,
        ms[i].gid,
        ms[i].perms,
        sz,
    );
    let hdr_spec = header_bytes(
        bsd_name_field(ms[i].name),
        ms[i].mtime,
        ms[i].uid,
        ms[i].gid,
        ms[i].perms,
        sz,
    );
    assert(blk == hdr_spec + ms[i].name + ms[i].data + pad_of(sz));
    assert(hdr_spec.len() == 60);
    assert((hdr_spec + ms[i].name).len() == 60 + nlen);
    assert(((hdr_spec + ms[i].name) + ms[i].data).len() == 60 + nlen + dlen);
    assert(blk.len() == 60 + sz + pad_of(sz).len());
    assert forall|j: int| 0 <= j < dlen implies #[trigger] blk[60 + nlen + j] == ms[i].data[j] by {
        assert(blk[60 + nlen + j] == ((hdr_spec + ms[i].name) + ms[i].data)[60 + nlen + j]);
        assert(((hdr_spec + ms[i].name) + ms[i].data)[60 + nlen + j] == ms[i].data[j]);
    }
    assert(parsed_model(ms, symtab, i).start == pos + 60 + nlen);
    assert(parsed_model(ms, symtab, i).end == pos + 60 + nlen + dlen);
    let rng = d.subrange(pos + 60 + nlen, pos + 60 + nlen + dlen);
    assert forall|j: int| 0 <= j < dlen implies #[trigger] rng[j] == ms[i].data[j] by {
        assert(rng[j] == d[pos + 60 + nlen + j]);
        assert(sfx[60 + nlen + j] == d[pos + 60 + nlen + j]);
        assert(sfx[60 + nlen + j] == blk[60 + nlen + j]);
    }
    assert(rng =~= ms[i].data);
}

// ---------------------------------------------------------------------------
// The same law for the GNU layout, for names the header itself can store
// ---------------------------------------------------------------------------

/// A name the `until_slash` scan refuses holds no slash anywhere.
proof fn lemma_until_slash_none(s: Seq<u8>)
    requires
        crate::reader::until_slash(s) is None,
    ensures
        forall|j: int| 0 <= j < s.len() ==> s[j] != 47,
    decreases s.len(),
{
    if s.len() > 0 {
        assert(s[0] != 47);
        lemma_until_slash_none(s.drop_first());
        assert forall|j: int| 0 <= j < s.len() implies s[j] != 47 by {
            if j > 0 {
                assert(s.drop_first()[j - 1] == s[j]);
            }
        }
    }
}

/// A name the GNU header itself can carry and read back: short, not empty,
/// and not the two bytes `#1`, whose padded field would look like a BSD
/// long-name marker.
pub open spec fn gnu_plain(name: Seq<u8>) -> bool {
    gnu_short(name) && name.len() >= 1 && name != seq![35u8, 49u8]
}

/// Every name of the list is plain.
pub open spec fn gnu_plain_names(ms: Seq<MemberView>) -> bool {
    forall|i: int| 0 <= i < ms.len() ==> gnu_plain((#[trigger] ms[i]).name)
}

/// The GNU short name field, as the parser classifies and reads it back.
proof fn lemma_gnu_short_field(name: Seq<u8>)
    requires
        gnu_plain(name),
    ensures
        (name + seq![47u8] + spaces((15 - name.len()) as nat)).len() == 16,
        !gnu_symtab_name(name + seq![47u8] + spaces((15 - name.len()) as nat)),
        !gnu_strtab_name(name + seq![47u8] + spaces((15 - name.len()) as nat)),
        !bsd_long_name(name + seq![47u8] + spaces((15 - name.len()) as nat)),
        (name + seq![47u8] + spaces((15 - name.len()) as nat))[0] != 47,
        crate::reader::until_slash(name + seq![47u8] + spaces((15 - name.len()) as nat))
            == Some(name),
{
    let nf = name + seq![47u8] + spaces((15 - name.len()) as nat);
    lemma_until_slash_none(name);
    assert(nf.len() == 16);
    assert(nf[0] == name[0] && name[0] != 47);
    assert(nf[name.len() as int] == 47);
    crate::reader::lemma_until_slash_cut(nf, name.len() as int);
    assert(nf.subrange(0, name.len() as int) =~= name);
    if name.len() >= 3 {
        assert(nf[2] == name[2] && name[2] != 47);
    } else if name.len() == 2 {
        if nf[0] == 35 && nf[1] == 49 {
            assert(name =~= seq![35u8, 49u8]);
        }
    } else {
        assert(nf[1] == 47);
    }
}

/// With only plain names, the string table is empty.
proof fn lemma_strtab_empty(ms: Seq<MemberView>, i: int)
    requires
        gnu_plain_names(ms),
        0 <= i <= ms.len(),
    ensures
        crate::writer::gnu_strtab_to(ms, i) == Seq::<u8>::empty(),
    decreases i,
{
    if i > 0 {
        lemma_strtab_empty(ms, i - 1);
        assert(crate::writer::gnu_strtab_entry(ms[i - 1]) =~= Seq::<u8>::empty());
        assert(crate::writer::gnu_strtab_to(ms, i) =~= Seq::<u8>::empty());
    }
}

/// Under representability, every member's fields fit their bounds.
proof fn lemma_member_bounds_gnu(ms: Seq<MemberView>, symtab: bool, i: int)
    requires
        representable(ArchiveKind::Gnu, ms, symtab),
        0 <= i < ms.len(),
    ensures
        member_size(ArchiveKind::Gnu, ms[i]) <= 0xFFFFFFFF,
        crate::writer::meta_ok(ms[i]),
{
    lemma_members_len_mono(ArchiveKind::Gnu, ms, i + 1, ms.len() as int);
    assert(members_len_to(ArchiveKind::Gnu, ms, i + 1) == members_len_to(
        ArchiveKind::Gnu,
        ms,
        i,
    ) + member_block_len(ArchiveKind::Gnu, ms[i]));
    assert(member_block_len(ArchiveKind::Gnu, ms[i]) <= total_len(
        ArchiveKind::Gnu,
        ms,
        symtab,
    ));
}

/// A GNU member block with a plain name is as long as `member_block_len` says.
proof fn lemma_block_len_gnu(ms: Seq<MemberView>, symtab: bool, i: int)
    requires
        representable(ArchiveKind::Gnu, ms, symtab),
        gnu_plain_names(ms),
        0 <= i < ms.len(),
    ensures
        member_block(ArchiveKind::Gnu, ms, i).len() == member_block_len(
            ArchiveKind::Gnu,
            ms[i],
        ),
{
    lemma_member_bounds_gnu(ms, symtab, i);
    lemma_pow_vals();
    let m = ms[i];
    lemma_gnu_short_field(m.name);
    lemma_header_parts(
        crate::writer::gnu_name_field(ms, i),
        m.mtime,
        m.uid,
        m.gid,
        m.perms,
        member_size(ArchiveKind::Gnu, m),
    );
}

/// The bytes the first `i` GNU member blocks take.
proof fn lemma_to_len_gnu(ms: Seq<MemberView>, symtab: bool, i: int)
    requires
        representable(ArchiveKind::Gnu, ms, symtab),
        gnu_plain_names(ms),
        0 <= i <= ms.len(),
    ensures
        members_bytes_to(ArchiveKind::Gnu, ms, i).len() == members_len_to(
            ArchiveKind::Gnu,
            ms,
            i,
        ),
    decreases i,
{
    if i > 0 {
        lemma_to_len_gnu(ms, symtab, i - 1);
        lemma_block_len_gnu(ms, symtab, i - 1);
    }
}

/// The GNU offset table is four bytes per symbol.
proof fn lemma_gnu_offs_len(ms: Seq<MemberView>, ss: Seq<(Seq<u8>, int)>, k: int)
    requires
        k >= 0,
    ensures
        crate::writer::gnu_offs_to(ArchiveKind::Gnu, ms, ss, k).len() == 4 * k,
    decreases k,
{
    if k > 0 {
        lemma_gnu_offs_len(ms, ss, k - 1);
    }
}

/// The GNU symbol table block is as long as `symtab_block_len` says.
proof fn lemma_symtab_block_len_gnu(ms: Seq<MemberView>, symtab: bool)
    requires
        representable(ArchiveKind::Gnu, ms, symtab),
        symtab,
    ensures
        symtab_block(ArchiveKind::Gnu, ms).len() == symtab_block_len(
            ArchiveKind::Gnu,
            ms,
            symtab,
        ),
        symtab_size(ArchiveKind::Gnu, ms) < pow_b(10, 10),
{
    lemma_pow_vals();
    let ssize = symtab_size(ArchiveKind::Gnu, ms);
    assert(symtab_block_len(ArchiveKind::Gnu, ms, symtab) <= total_len(
        ArchiveKind::Gnu,
        ms,
        symtab,
    ));
    lemma_header_parts(seq![47u8] + spaces(15), 0, 0, 0, 0, ssize);
    let ss = syms_of(ms);
    lemma_gnu_offs_len(ms, ss, ss.len() as int);
    assert(crate::writer::gnu_symtab_content(ms).len() == 4 + 4 * ss.len() + symstr_to(
        ss,
        ss.len() as int,
    ).len());
}

/// What the parser reports for GNU member `i`.
pub open spec fn parsed_model_gnu(ms: Seq<MemberView>, symtab: bool, i: int) -> MemberModel {
    MemberModel {
        name: ms[i].name,
        start: member_offset(ArchiveKind::Gnu, ms, symtab, i) as int + 60,
        end: member_offset(ArchiveKind::Gnu, ms, symtab, i) as int + 60 + ms[i].data.len(),
    }
}

/// The suffix of the GNU archive from member `i`'s header on.
proof fn lemma_suffix_at_gnu(ms: Seq<MemberView>, symtab: bool, i: int)
    requires
        representable(ArchiveKind::Gnu, ms, symtab),
        gnu_plain_names(ms),
        0 <= i <= ms.len(),
    ensures
        archive_bytes(ArchiveKind::Gnu, ms, symtab).len() == total_len(
            ArchiveKind::Gnu,
            ms,
            symtab,
        ),
        archive_bytes(ArchiveKind::Gnu, ms, symtab).subrange(
            member_offset(ArchiveKind::Gnu, ms, symtab, i) as int,
            total_len(ArchiveKind::Gnu, ms, symtab) as int,
        ) == members_bytes_from(ArchiveKind::Gnu, ms, i),
{
    let d = archive_bytes(ArchiveKind::Gnu, ms, symtab);
    let stb: Seq<u8> = if symtab {
        symtab_block(ArchiveKind::Gnu, ms)
    } else {
        Seq::empty()
    };
    lemma_strtab_empty(ms, ms.len() as int);
    assert(strtab_block_len(ArchiveKind::Gnu, ms) == 0);
    assert(d == magic() + stb + Seq::<u8>::empty() + members_bytes_to(
        ArchiveKind::Gnu,
        ms,
        ms.len() as int,
    ));
    if symtab {
        lemma_symtab_block_len_gnu(ms, symtab);
    }
    assert(stb.len() == symtab_block_len(ArchiveKind::Gnu, ms, symtab));
    lemma_to_len_gnu(ms, symtab, ms.len() as int);
    lemma_to_len_gnu(ms, symtab, i);
    lemma_to_from_split(ArchiveKind::Gnu, ms, i);
    assert(d.len() == total_len(ArchiveKind::Gnu, ms, symtab));
    assert(d =~= magic() + stb + members_bytes_to(ArchiveKind::Gnu, ms, i)
        + members_bytes_from(ArchiveKind::Gnu, ms, i));
    assert(d.subrange(
        member_offset(ArchiveKind::Gnu, ms, symtab, i) as int,
        total_len(ArchiveKind::Gnu, ms, symtab) as int,
    ) =~= members_bytes_from(ArchiveKind::Gnu, ms, i));
}

/// Parsing from GNU member `i`'s header yields the models of members `i` on.
#[verifier::rlimit(100)]
proof fn lemma_parse_suffix_gnu(
    d: Seq<u8>,
    ms: Seq<MemberView>,
    symtab: bool,
    st: Option<Seq<u8>>,
    i: int,
)
    requires
        representable(ArchiveKind::Gnu, ms, symtab),
        gnu_plain_names(ms),
        0 <= i <= ms.len(),
        d.len() == total_len(ArchiveKind::Gnu, ms, symtab),
        d.subrange(member_offset(ArchiveKind::Gnu, ms, symtab, i) as int, d.len() as int)
            == members_bytes_from(ArchiveKind::Gnu, ms, i),
    ensures
        parse_members(d, member_offset(ArchiveKind::Gnu, ms, symtab, i) as int, st) == Ok::<
            Seq<MemberModel>,
            ParseError,
        >(Seq::new((ms.len() - i) as nat, |k: int| parsed_model_gnu(ms, symtab, i + k))),
    decreases ms.len() - i,
{
    let pos = member_offset(ArchiveKind::Gnu, ms, symtab, i) as int;
    if i == ms.len() {
        assert(pos == d.len());
        assert(Seq::new(0, |k: int| parsed_model_gnu(ms, symtab, i + k)) =~= Seq::<
            MemberModel,
        >::empty());
    } else {
        lemma_member_bounds_gnu(ms, symtab, i);
        lemma_block_len_gnu(ms, symtab, i);
        lemma_pow_vals();
        let m = ms[i];
        let sz = member_size(ArchiveKind::Gnu, m);
        lemma_gnu_short_field(m.name);
        let namef = crate::writer::gnu_name_field(ms, i);
        assert(namef == m.name + seq![47u8] + spaces((15 - m.name.len()) as nat));
        lemma_header_parts(namef, m.mtime, m.uid, m.gid, m.perms, sz);
        let hdr_spec = header_bytes(namef, m.mtime, m.uid, m.gid, m.perms, sz);
        let blk = member_block(ArchiveKind::Gnu, ms, i);
        assert(blk == hdr_spec + m.data + pad_of(sz));
        let sfx = d.subrange(pos, d.len() as int);
        assert(sfx == blk + members_bytes_from(ArchiveKind::Gnu, ms, i + 1));
        assert(member_offset(ArchiveKind::Gnu, ms, symtab, i + 1) == pos + blk.len()) by {
            assert(members_len_to(ArchiveKind::Gnu, ms, i + 1) == members_len_to(
                ArchiveKind::Gnu,
                ms,
                i,
            ) + member_block_len(ArchiveKind::Gnu, ms[i]));
        }
        let next_off = pos + blk.len();
        assert(next_off <= d.len()) by {
            lemma_members_len_mono(ArchiveKind::Gnu, ms, i + 1, ms.len() as int);
        }
        let hdr = d.subrange(pos, pos + 60);
        assert(hdr =~= hdr_spec);
        assert(hdr[58] == 96 && hdr[59] == 10);
        assert(hdr.subrange(48, 58) =~= hdr_spec.subrange(48, 58));
        assert(parse_num(hdr.subrange(48, 58), 10) == Some(sz));
        let start0 = pos + 60;
        let end0 = start0 + sz;
        assert(end0 <= d.len());
        let next = if sz % 2 == 1 && end0 < d.len() {
            end0 + 1
        } else {
            end0
        };
        assert(next == next_off) by {
            if sz % 2 == 1 {
                assert(pad_of(sz).len() == 1);
                assert(next_off == end0 + 1);
            } else {
                assert(pad_of(sz).len() == 0);
            }
        }
        let nf = hdr.subrange(0, 16);
        assert(nf =~= namef);
        assert(!gnu_symtab_name(nf) && !gnu_strtab_name(nf) && !bsd_long_name(nf) && nf[0]
            != 47);
        assert(crate::reader::until_slash(nf) == Some(m.name));
        assert(d.subrange(next_off, d.len() as int) =~= sfx.subrange(
            blk.len() as int,
            sfx.len() as int,
        ));
        assert(sfx.subrange(blk.len() as int, sfx.len() as int) =~= members_bytes_from(
            ArchiveKind::Gnu,
            ms,
            i + 1,
        ));
        lemma_parse_suffix_gnu(d, ms, symtab, st, i + 1);
        let rest = Seq::new(
            (ms.len() - i - 1) as nat,
            |k: int| parsed_model_gnu(ms, symtab, i + 1 + k),
        );
        assert(parse_members(d, pos, st) == Ok::<Seq<MemberModel>, ParseError>(
            seq![MemberModel { name: m.name, start: start0, end: end0 }] + rest,
        ));
        assert(MemberModel { name: m.name, start: start0, end: end0 } == parsed_model_gnu(
            ms,
            symtab,
            i,
        ));
        assert(seq![parsed_model_gnu(ms, symtab, i)] + rest =~= Seq::new(
            (ms.len() - i) as nat,
            |k: int| parsed_model_gnu(ms, symtab, i + k),
        ));
    }
}

/// The byte range the parser reports for GNU member `i` holds exactly the
/// member's content.
#[verifier::rlimit(100)]
proof fn lemma_content_at_gnu(ms: Seq<MemberView>, symtab: bool, i: int)
    requires
        representable(ArchiveKind::Gnu, ms, symtab),
        gnu_plain_names(ms),
        0 <= i < ms.len(),
    ensures
        archive_bytes(ArchiveKind::Gnu, ms, symtab).subrange(
            parsed_model_gnu(ms, symtab, i).start,
            parsed_model_gnu(ms, symtab, i).end,
        ) == ms[i].data,
{
    let d = archive_bytes(ArchiveKind::Gnu, ms, symtab);
    lemma_suffix_at_gnu(ms, symtab, i);
    lemma_member_bounds_gnu(ms, symtab, i);
    lemma_block_len_gnu(ms, symtab, i);
    lemma_pow_vals();
    lemma_gnu_short_field(ms[i].name);
    let pos = member_offset(ArchiveKind::Gnu, ms, symtab, i) as int;
    lemma_members_len_mono(ArchiveKind::Gnu, ms, i, ms.len() as int);
    lemma_members_len_mono(ArchiveKind::Gnu, ms, i + 1, ms.len() as int);
    assert(members_len_to(ArchiveKind::Gnu, ms, i + 1) == members_len_to(
        ArchiveKind::Gnu,
        ms,
        i,
    ) + member_block_len(ArchiveKind::Gnu, ms[i]));
    assert(pos + member_block_len(ArchiveKind::Gnu, ms[i]) <= d.len());
    let sfx = d.subrange(pos, d.len() as int);
    let blk = member_block(ArchiveKind::Gnu, ms, i);
    assert(sfx == blk + members_bytes_from(ArchiveKind::Gnu, ms, i + 1));
    let dlen = ms[i].data.len() as int;
    let sz = member_size(ArchiveKind::Gnu, ms[i]);
    let namef = crate::writer::gnu_name_field(ms, i);
    lemma_header_parts(namef, ms[i].mtime, ms[i].uid, ms[i].gid, ms[i].perms, sz);
    let hdr_spec = header_bytes(namef, ms[i].mtime, ms[i].uid, ms[i].gid, ms[i].perms, sz);
    assert(blk == hdr_spec + ms[i].data + pad_of(sz));
    assert(hdr_spec.len() == 60);
    assert((hdr_spec + ms[i].data).len() == 60 + dlen);
    assert forall|j: int| 0 <= j < dlen implies #[trigger] blk[60 + j] == ms[i].data[j] by {
        assert(blk[60 + j] == (hdr_spec + ms[i].data)[60 + j]);
        assert((hdr_spec + ms[i].data)[60 + j] == ms[i].data[j]);
    }
    assert(parsed_model_gnu(ms, symtab, i).start == pos + 60);
    assert(parsed_model_gnu(ms, symtab, i).end == pos + 60 + dlen);
    let rng = d.subrange(pos + 60, pos + 60 + dlen);
    assert forall|j: int| 0 <= j < dlen implies #[trigger] rng[j] == ms[i].data[j] by {
        assert(rng[j] == d[pos + 60 + j]);
        assert(sfx[60 + j] == d[pos + 60 + j]);
        assert(sfx[60 + j] == blk[60 + j]);
    }
    assert(rng =~= ms[i].data);
}

/// The law for the GNU layout: for a representable member list whose names
/// the GNU header itself can store — at most fifteen bytes, no `/`, not
/// empty, not the two bytes `#1` — parsing the GNU archive of the list
/// yields one parsed member per input member, in the same order, bearing the
/// same name, whose byte range holds exactly the member's content.
#[verifier::rlimit(100)]
pub proof fn lemma_gnu_round_trip(ms: Seq<MemberView>, symtab: bool)
    requires
        representable(ArchiveKind::Gnu, ms, symtab),
        gnu_plain_names(ms),
    ensures
        parse_spec(archive_bytes(ArchiveKind::Gnu, ms, symtab)) == Ok::<
            Seq<MemberModel>,
            ParseError,
        >(Seq::new(ms.len(), |i: int| parsed_model_gnu(ms, symtab, i))),
        forall|i: int|
            0 <= i < ms.len() ==> parsed_model_gnu(ms, symtab, i).name == ms[i].name
                && archive_bytes(ArchiveKind::Gnu, ms, symtab).subrange(
                parsed_model_gnu(ms, symtab, i).start,
                parsed_model_gnu(ms, symtab, i).end,
            ) == ms[i].data,
{
    let d = archive_bytes(ArchiveKind::Gnu, ms, symtab);
    lemma_suffix_at_gnu(ms, symtab, 0);
    lemma_pow_vals();
    assert(d.len() >= 8);
    assert(d.subrange(0, 8) =~= magic());
    lemma_strtab_empty(ms, ms.len() as int);
    if symtab {
        lemma_symtab_block_len_gnu(ms, symtab);
        let ssize = symtab_size(ArchiveKind::Gnu, ms);
        lemma_header_parts(seq![47u8] + spaces(15), 0, 0, 0, 0, ssize);
        let hdr_spec = header_bytes(seq![47u8] + spaces(15), 0, 0, 0, 0, ssize);
        let stb = symtab_block(ArchiveKind::Gnu, ms);
        assert(stb == hdr_spec + crate::writer::gnu_symtab_content(ms) + pad_of(ssize));
        let off0 = member_offset(ArchiveKind::Gnu, ms, symtab, 0) as int;
        assert(off0 == 8 + stb.len());
        let hdr = d.subrange(8, 68);
        assert(hdr =~= hdr_spec) by {
            assert(d == magic() + stb + Seq::<u8>::empty() + members_bytes_to(
                ArchiveKind::Gnu,
                ms,
                ms.len() as int,
            ));
        }
        assert(hdr[58] == 96 && hdr[59] == 10);
        assert(hdr.subrange(48, 58) =~= hdr_spec.subrange(48, 58));
        assert(parse_num(hdr.subrange(48, 58), 10) == Some(ssize));
        let start0 = 68int;
        let end0 = start0 + ssize;
        assert(end0 <= d.len());
        let next = if ssize % 2 == 1 && end0 < d.len() {
            end0 + 1
        } else {
            end0
        };
        assert(next == off0) by {
            if ssize % 2 == 1 {
                assert(pad_of(ssize).len() == 1);
            } else {
                assert(pad_of(ssize).len() == 0);
            }
        }
        let nf = hdr.subrange(0, 16);
        assert(nf =~= seq![47u8] + spaces(15));
        assert(gnu_symtab_name(nf)) by {
            assert(nf[0] == 47);
            assert(forall|j: int| 1 <= j < 16 ==> nf[j] == spaces(15)[j - 1]);
        }
        lemma_parse_suffix_gnu(d, ms, symtab, None, 0);
        assert(parse_members(d, 8, None) == parse_members(d, off0, None));
    } else {
        assert(member_offset(ArchiveKind::Gnu, ms, symtab, 0) == 8);
        lemma_parse_suffix_gnu(d, ms, symtab, None, 0);
    }
    assert(Seq::new((ms.len() - 0) as nat, |k: int| parsed_model_gnu(ms, symtab, 0 + k))
        =~= Seq::new(ms.len(), |i: int| parsed_model_gnu(ms, symtab, i)));
    assert forall|i: int| 0 <= i < ms.len() implies parsed_model_gnu(ms, symtab, i).name == ms[
        i
    ].name && d.subrange(
        parsed_model_gnu(ms, symtab, i).start,
        parsed_model_gnu(ms, symtab, i).end,
    ) == ms[i].data by {
        lemma_content_at_gnu(ms, symtab, i);
    }
}

} // verus!
