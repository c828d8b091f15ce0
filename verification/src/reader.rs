//! The archive reader: parses the member directory of an `ar` archive held in
//! memory and yields, for each member in file order, its name and the byte
//! range `[start, end)` of its raw content within the archive. Only header
//! and directory bytes are consulted; member payloads are never touched.
//!
//! Both member-name conventions are understood: the GNU layout (`name/`
//! short names, a `//` string table for long names, a `/` symbol table) and
//! the BSD/Darwin layout (`#1/<len>` names stored in front of the content, a
//! `__.SYMDEF` symbol table). Symbol tables and the string table are consumed
//! but not reported as members.

use vstd::prelude::*;

use crate::bytes::{
    copy_range, parse_num, parse_num_range, trim_spaces_end, trim_trailing_spaces,
};

verus! {

/// Why an archive failed to parse.
#[derive(Clone, Copy, PartialEq, Eq, Structural, Debug)]
pub enum ParseError {
    /// The file does not begin with the archive magic `!<arch>\n`.
    BadMagic,
    /// A member header, or the content a header declares, runs past the end
    /// of the file.
    Truncated,
    /// A member header is malformed: end marker, size field, or name.
    BadHeader,
}

/// A parsed member, at the specification level: its name and the half-open
/// byte range of its content within the archive.
pub struct MemberModel {
    pub name: Seq<u8>,
    pub start: int,
    pub end: int,
}

/// A parsed member: its name and the half-open byte range `[start, end)` of
/// its raw content within the archive the reader was given.
#[derive(Debug)]
pub struct ParsedMember {
    pub name: Vec<u8>,
    pub start: usize,
    pub end: usize,
}

impl View for ParsedMember {
    type V = MemberModel;

    open spec fn view(&self) -> MemberModel {
        MemberModel { name: self.name@, start: self.start as int, end: self.end as int }
    }
}

/// The views of a parsed member list.
pub open spec fn member_views(v: Seq<ParsedMember>) -> Seq<MemberModel> {
    v.map_values(|m: ParsedMember| m@)
}

/// The archive magic, `!<arch>\n`.
pub open spec fn magic() -> Seq<u8> {
    seq![33u8, 60u8, 97u8, 114u8, 99u8, 104u8, 62u8, 10u8]
}

/// The name field of the GNU symbol table: `/` padded with spaces.
pub open spec fn gnu_symtab_name(nf: Seq<u8>) -> bool {
    nf.len() == 16 && nf[0] == 47 && (forall|i: int| 1 <= i < 16 ==> nf[i] == 32)
}

/// The name field of the GNU string table: `//` padded with spaces.
pub open spec fn gnu_strtab_name(nf: Seq<u8>) -> bool {
    nf.len() == 16 && nf[0] == 47 && nf[1] == 47 && (forall|i: int|
        2 <= i < 16 ==> nf[i] == 32)
}

/// A BSD-style long name field: `#1/` followed by the name's length.
pub open spec fn bsd_long_name(nf: Seq<u8>) -> bool {
    nf.len() == 16 && nf[0] == 35 && nf[1] == 49 && nf[2] == 47
}

/// True iff `name` begins with `__.SYMDEF`, the BSD/Darwin symbol table.
pub open spec fn symdef_name(name: Seq<u8>) -> bool {
    name.len() >= 9 && name[0] == 95 && name[1] == 95 && name[2] == 46 && name[3]
        == 83 && name[4] == 89 && name[5] == 77 && name[6] == 68 && name[7] == 69
        && name[8] == 70
}

/// The prefix of `s` before its first `/`, or `None` if it has no `/`.
pub open spec fn until_slash(s: Seq<u8>) -> Option<Seq<u8>>
    decreases s.len(),
{
    if s.len() == 0 {
        None
    } else if s[0] == 47 {
        Some(Seq::empty())
    } else {
        match until_slash(s.drop_first()) {
            Some(r) => Some(seq![s[0]] + r),
            None => None,
        }
    }
}

/// What the member directory from byte `pos` on parses to, given the string
/// table seen so far. Ends exactly at the end of the data; every header is
/// checked before its size is believed.
pub open spec fn parse_members(d: Seq<u8>, pos: int, st: Option<Seq<u8>>) -> Result<
    Seq<MemberModel>,
    ParseError,
>
    decreases d.len() - pos,
{
    if pos == d.len() {
        Ok(Seq::empty())
    } else if pos < 0 || pos + 60 > d.len() {
        Err(ParseError::Truncated)
    } else {
        let hdr = d.subrange(pos, pos + 60);
        if hdr[58] != 96 || hdr[59] != 10 {
            Err(ParseError::BadHeader)
        } else {
            match parse_num(hdr.subrange(48, 58), 10) {
                None => Err(ParseError::BadHeader),
                Some(size) => {
                    let start0 = pos + 60;
                    let end0 = start0 + size;
                    if end0 > d.len() {
                        Err(ParseError::Truncated)
                    } else {
                        let next = if size % 2 == 1 && end0 < d.len() {
                            end0 + 1
                        } else {
                            end0
                        };
                        let nf = hdr.subrange(0, 16);
                        if gnu_symtab_name(nf) {
                            parse_members(d, next, st)
                        } else if gnu_strtab_name(nf) {
                            parse_members(d, next, Some(d.subrange(start0, end0)))
                        } else if bsd_long_name(nf) {
                            match parse_num(nf.subrange(3, 16), 10) {
                                None => Err(ParseError::BadHeader),
                                Some(nlen) => if nlen > size {
                                    Err(ParseError::BadHeader)
                                } else {
                                    let name = d.subrange(start0, start0 + nlen);
                                    if symdef_name(name) {
                                        parse_members(d, next, st)
                                    } else {
                                        match parse_members(d, next, st) {
                                            Ok(rest) => Ok(
                                                seq![
                                                    MemberModel {
                                                        name,
                                                        start: start0 + nlen,
                                                        end: end0,
                                                    },
                                                ] + rest,
                                            ),
                                            Err(e) => Err(e),
                                        }
                                    }
                                },
                            }
                        } else if nf[0] == 47 {
                            match parse_num(nf.subrange(1, 16), 10) {
                                None => Err(ParseError::BadHeader),
                                Some(off) => match st {
                                    None => Err(ParseError::BadHeader),
                                    Some(stt) => if off > stt.len() {
                                        Err(ParseError::BadHeader)
                                    } else {
                                        match until_slash(
                                            stt.subrange(off as int, stt.len() as int),
                                        ) {
                                            None => Err(ParseError::BadHeader),
                                            Some(name) => match parse_members(
                                                d,
                                                next,
                                                st,
                                            ) {
                                                Ok(rest) => Ok(
                                                    seq![
                                                        MemberModel {
                                                            name,
                                                            start: start0,
                                                            end: end0,
                                                        },
                                                    ] + rest,
                                                ),
                                                Err(e) => Err(e),
                                            },
                                        }
                                    },
                                },
                            }
                        } else {
                            let name = match until_slash(nf) {
                                Some(nm) => nm,
                                None => trim_trailing_spaces(nf),
                            };
                            match parse_members(d, next, st) {
                                Ok(rest) => Ok(
                                    seq![MemberModel { name, start: start0, end: end0 }]
                                        + rest,
                                ),
                                Err(e) => Err(e),
                            }
                        }
                    }
                },
            }
        }
    }
}

/// What an archive parses to: its magic, then its member directory.
pub open spec fn parse_spec(d: Seq<u8>) -> Result<Seq<MemberModel>, ParseError> {
    if d.len() < 8 || d.subrange(0, 8) != magic() {
        Err(ParseError::BadMagic)
    } else {
        parse_members(d, 8, None)
    }
}

pub(crate) proof fn lemma_until_slash_cut(s: Seq<u8>, k: int)
    requires
        0 <= k <= s.len(),
        forall|j: int| 0 <= j < k ==> s[j] != 47,
        k < s.len() ==> s[k] == 47,
    ensures
        k < s.len() ==> until_slash(s) == Some(s.subrange(0, k)),
        k == s.len() ==> until_slash(s) is None,
    decreases s.len(),
{
    if s.len() == 0 {
    } else if k == 0 {
        assert(s.subrange(0, 0) =~= Seq::<u8>::empty());
    } else {
        let tl = s.drop_first();
        lemma_until_slash_cut(tl, k - 1);
        if k < s.len() {
            assert(tl.subrange(0, k - 1) =~= s.subrange(1, k));
            assert(seq![s[0]] + s.subrange(1, k) =~= s.subrange(0, k));
        }
    }
}

/// Finds the first `/` in `d[from..to]`, as `until_slash` sees it.
pub(crate) fn find_slash(d: &Vec<u8>, from: usize, to: usize) -> (r: Option<usize>)
    requires
        from <= to <= d@.len(),
    ensures
        match r {
            Some(k) => from <= k < to && until_slash(
                d@.subrange(from as int, to as int),
            ) == Some(d@.subrange(from as int, k as int)),
            None => until_slash(d@.subrange(from as int, to as int)) is None,
        },
{
    let ghost s = d@.subrange(from as int, to as int);
    let mut i: usize = from;
    while i < to
        invariant
            from <= i <= to <= d@.len(),
            s == d@.subrange(from as int, to as int),
            forall|j: int| from <= j < i ==> d@[j] != 47,
        decreases to - i,
    {
        if d[i] == 47 {
            proof {
                assert(forall|j: int| 0 <= j < i - from ==> s[j] == d@[from + j]);
                assert(s[i - from] == 47);
                lemma_until_slash_cut(s, i - from);
                assert(s.subrange(0, i - from) =~= d@.subrange(from as int, i as int));
            }
            return Some(i);
        }
        i += 1;
    }
    proof {
        assert(forall|j: int| 0 <= j < s.len() ==> s[j] == d@[from + j]);
        lemma_until_slash_cut(s, s.len() as int);
    }
    None
}

/// Finds the first byte of `d[from..to]` that is not a space.
fn first_non_space(d: &Vec<u8>, from: usize, to: usize) -> (r: Option<usize>)
    requires
        from <= to <= d@.len(),
    ensures
        match r {
            Some(j) => from <= j < to && d@[j as int] != 32,
            None => forall|j: int| from <= j < to ==> d@[j] == 32,
        },
{
    let mut i: usize = from;
    while i < to
        invariant
            from <= i <= to <= d@.len(),
            forall|j: int| from <= j < i ==> d@[j] == 32,
        decreases to - i,
    {
        if d[i] != 32 {
            return Some(i);
        }
        i += 1;
    }
    None
}

/// The string table seen so far, as the specification sees it.
pub open spec fn st_view(st: Option<(usize, usize)>, d: Seq<u8>) -> Option<Seq<u8>> {
    match st {
        Some((a, b)) => Some(d.subrange(a as int, b as int)),
        None => None,
    }
}

/// Parses the member directory of the archive in `d`: for each member in
/// file order, its name and the byte range of its raw content. Succeeds
/// exactly when the archive is well formed, and returns exactly the members
/// that [`parse_spec`] describes; symbol tables and the GNU string table are
/// consumed but not reported.
#[verifier::rlimit(100)]
pub fn parse_archive(d: &Vec<u8>) -> (r: Result<Vec<ParsedMember>, ParseError>)
    ensures
        match r {
            Ok(v) => parse_spec(d@) == Ok::<Seq<MemberModel>, ParseError>(
                member_views(v@),
            ) && forall|i: int|
                0 <= i < v@.len() ==> (#[trigger] v@[i]).start <= v@[i].end
                    <= d@.len(),
            Err(e) => parse_spec(d@) == Err::<Seq<MemberModel>, ParseError>(e),
        },
{
    if d.len() < 8 {
        return Err(ParseError::BadMagic);
    }
    let m0 = copy_range(d, 0, 8);
    let mg: Vec<u8> = vec![33u8, 60u8, 97u8, 114u8, 99u8, 104u8, 62u8, 10u8];
    proof {
        assert(mg@ =~= magic());
    }
    if !crate::bytes::bytes_eq(&m0, &mg) {
        return Err(ParseError::BadMagic);
    }
    let mut out: Vec<ParsedMember> = Vec::new();
    let mut pos: usize = 8;
    let mut st: Option<(usize, usize)> = None;
    while pos < d.len()
        invariant
            8 <= pos <= d@.len(),
            match st {
                Some((a, b)) => a <= b <= d@.len(),
                None => true,
            },
            forall|i: int|
                0 <= i < out@.len() ==> (#[trigger] out@[i]).start <= out@[i].end
                    <= d@.len(),
            match parse_members(d@, pos as int, st_view(st, d@)) {
                Ok(rest) => parse_spec(d@) == Ok::<Seq<MemberModel>, ParseError>(
                    member_views(out@) + rest,
                ),
                Err(e) => parse_spec(d@) == Err::<Seq<MemberModel>, ParseError>(e),
            },
        decreases d@.len() - pos,
    {
        let ghost stv = st_view(st, d@);
        if d.len() - pos < 60 {
            return Err(ParseError::Truncated);
        }
        let ghost hdr = d@.subrange(pos as int, pos + 60);
        proof {
            assert(hdr[58] == d@[pos + 58] && hdr[59] == d@[pos + 59]);
        }
        if d[pos + 58] != 96 || d[pos + 59] != 10 {
            return Err(ParseError::BadHeader);
        }
        proof {
            assert(hdr.subrange(48, 58) =~= d@.subrange(pos + 48, pos + 58));
        }
        let size_r = parse_num_range(d, pos + 48, pos + 58);
        let size: u64 = match size_r {
            None => {
                return Err(ParseError::BadHeader);
            },
            Some(s) => s,
        };
        let remaining: u64 = (d.len() - (pos + 60)) as u64;
        if size > remaining {
            proof {
                assert(pos + 60 + size > d@.len());
            }
            return Err(ParseError::Truncated);
        }
        let start0: usize = pos + 60;
        let end0: usize = start0 + (size as usize);
        let next: usize = if size % 2 == 1 && end0 < d.len() {
            end0 + 1
        } else {
            end0
        };
        let ghost nf = hdr.subrange(0, 16);
        proof {
            assert(forall|i: int| 0 <= i < 16 ==> nf[i] == d@[pos + i]);
            assert(nf.len() == 16);
            assert(nf[0] == d@[pos as int] && nf[1] == d@[pos + 1] && nf[2] == d@[pos
                + 2]);
        }
        let b0 = d[pos];
        let sym_w = first_non_space(d, pos + 1, pos + 16);
        let strt_w = first_non_space(d, pos + 2, pos + 16);
        let is_sym = b0 == 47 && sym_w.is_none();
        let is_strt = b0 == 47 && d[pos + 1] == 47 && strt_w.is_none();
        proof {
            assert(is_sym == gnu_symtab_name(nf)) by {
                if is_sym {
                    assert forall|i: int| 1 <= i < 16 implies nf[i] == 32 by {
                        assert(nf[i] == d@[pos + i]);
                    }
                } else if b0 == 47 {
                    if sym_w is Some {
                        let j = sym_w->0 as int;
                        assert(nf[j - pos] == d@[j]);
                        assert(nf[j - pos] != 32);
                    }
                }
            }
            assert(is_strt == gnu_strtab_name(nf)) by {
                if is_strt {
                    assert forall|i: int| 2 <= i < 16 implies nf[i] == 32 by {
                        assert(nf[i] == d@[pos + i]);
                    }
                } else if b0 == 47 && d@[pos + 1] == 47 {
                    if strt_w is Some {
                        let j = strt_w->0 as int;
                        assert(nf[j - pos] == d@[j]);
                        assert(nf[j - pos] != 32);
                    }
                }
            }
        }
        if is_sym {
            // GNU symbol table: skip it
            proof {
                assert(parse_members(d@, pos as int, stv) == parse_members(
                    d@,
                    next as int,
                    stv,
                ));
            }
            pos = next;
        } else if is_strt {
            // GNU string table: remember where it lies
            proof {
                assert(parse_members(d@, pos as int, stv) == parse_members(
                    d@,
                    next as int,
                    Some(d@.subrange(start0 as int, end0 as int)),
                ));
            }
            st = Some((start0, end0));
            pos = next;
        } else if b0 == 35 && d[pos + 1] == 49 && d[pos + 2] == 47 {
            // BSD long name: the name sits in front of the content
            proof {
                assert(!gnu_symtab_name(nf) && !gnu_strtab_name(nf));
                assert(bsd_long_name(nf));
                assert(nf.subrange(3, 16) =~= d@.subrange(pos + 3, pos + 16));
            }
            let nlen_r = parse_num_range(d, pos + 3, pos + 16);
            let nlen: u64 = match nlen_r {
                None => {
                    return Err(ParseError::BadHeader);
                },
                Some(n) => n,
            };
            if nlen > size {
                return Err(ParseError::BadHeader);
            }
            let nlen_u: usize = nlen as usize;
            let ghost name = d@.subrange(start0 as int, start0 + nlen_u);
            let is_symdef = nlen_u >= 9 && d[start0] == 95 && d[start0 + 1] == 95
                && d[start0 + 2] == 46 && d[start0 + 3] == 83 && d[start0 + 4] == 89
                && d[start0 + 5] == 77 && d[start0 + 6] == 68 && d[start0 + 7] == 69
                && d[start0 + 8] == 70;
            proof {
                assert(forall|i: int| 0 <= i < nlen_u ==> name[i] == d@[start0 + i]);
                assert(is_symdef == symdef_name(name));
            }
            if is_symdef {
                proof {
                    assert(parse_members(d@, pos as int, stv) == parse_members(
                        d@,
                        next as int,
                        stv,
                    ));
                }
                pos = next;
            } else {
                let nm = copy_range(d, start0, start0 + nlen_u);
                let pm = ParsedMember { name: nm, start: start0 + nlen_u, end: end0 };
                proof {
                    let nxt = parse_members(d@, next as int, stv);
                    if nxt is Ok {
                        assert(parse_members(d@, pos as int, stv) == Ok::<
                            Seq<MemberModel>,
                            ParseError,
                        >(seq![pm@] + nxt->Ok_0));
                        assert(member_views(out@.push(pm)) =~= member_views(out@)
                            + seq![pm@]);
                        assert(member_views(out@) + (seq![pm@] + nxt->Ok_0) =~= (
                        member_views(out@) + seq![pm@]) + nxt->Ok_0);
                    } else {
                        assert(parse_members(d@, pos as int, stv) == nxt);
                    }
                }
                out.push(pm);
                pos = next;
            }
        } else if b0 == 47 {
            // GNU long name: an offset into the string table
            proof {
                assert(!gnu_symtab_name(nf) && !gnu_strtab_name(nf) && !bsd_long_name(
                nf));
                assert(nf.subrange(1, 16) =~= d@.subrange(pos + 1, pos + 16));
            }
            let off_r = parse_num_range(d, pos + 1, pos + 16);
            let off: u64 = match off_r {
                None => {
                    return Err(ParseError::BadHeader);
                },
                Some(o) => o,
            };
            let (a, b) = match st {
                None => {
                    return Err(ParseError::BadHeader);
                },
                Some(p) => p,
            };
            let stlen: u64 = (b - a) as u64;
            if off > stlen {
                return Err(ParseError::BadHeader);
            }
            let off_u: usize = off as usize;
            let ghost stt = d@.subrange(a as int, b as int);
            proof {
                assert(stt.subrange(off as int, stt.len() as int) =~= d@.subrange(
                    a + off_u,
                    b as int,
                ));
            }
            let k = match find_slash(d, a + off_u, b) {
                None => {
                    return Err(ParseError::BadHeader);
                },
                Some(k) => k,
            };
            let nm = copy_range(d, a + off_u, k);
            let pm = ParsedMember { name: nm, start: start0, end: end0 };
            proof {
                let nxt = parse_members(d@, next as int, stv);
                if nxt is Ok {
                    assert(parse_members(d@, pos as int, stv) == Ok::<
                        Seq<MemberModel>,
                        ParseError,
                    >(seq![pm@] + nxt->Ok_0));
                    assert(member_views(out@.push(pm)) =~= member_views(out@)
                        + seq![pm@]);
                    assert(member_views(out@) + (seq![pm@] + nxt->Ok_0) =~= (
                    member_views(out@) + seq![pm@]) + nxt->Ok_0);
                } else {
                    assert(parse_members(d@, pos as int, stv) == nxt);
                }
            }
            out.push(pm);
            pos = next;
        } else {
            // short name: GNU `name/` or BSD `name` padded with spaces
            proof {
                assert(!gnu_symtab_name(nf) && !gnu_strtab_name(nf) && !bsd_long_name(
                nf) && nf[0] != 47);
                assert(nf =~= d@.subrange(pos as int, pos + 16));
            }
            let nm = match find_slash(d, pos, pos + 16) {
                Some(k) => copy_range(d, pos, k),
                None => {
                    let j = trim_spaces_end(d, pos, pos + 16);
                    copy_range(d, pos, j)
                },
            };
            let pm = ParsedMember { name: nm, start: start0, end: end0 };
            proof {
                let nxt = parse_members(d@, next as int, stv);
                if nxt is Ok {
                    assert(parse_members(d@, pos as int, stv) == Ok::<
                        Seq<MemberModel>,
                        ParseError,
                    >(seq![pm@] + nxt->Ok_0));
                    assert(member_views(out@.push(pm)) =~= member_views(out@)
                        + seq![pm@]);
                    assert(member_views(out@) + (seq![pm@] + nxt->Ok_0) =~= (
                    member_views(out@) + seq![pm@]) + nxt->Ok_0);
                } else {
                    assert(parse_members(d@, pos as int, stv) == nxt);
                }
            }
            out.push(pm);
            pos = next;
        }
    }
    proof {
        assert(parse_members(d@, pos as int, st_view(st, d@)) == Ok::<
            Seq<MemberModel>,
            ParseError,
        >(Seq::empty()));
        assert(member_views(out@) + Seq::<MemberModel>::empty() =~= member_views(
            out@,
        ));
    }
    Ok(out)
}

} // verus!
