//! The group driver: many container files processed as one batch.
//!
//! Exporting concatenates every file's lines and records, per file, its
//! path and line range beside the file's own envelope.  Importing splits
//! the lines back by those ranges; an entry whose path is not among the
//! currently discovered files is silently skipped, so a partial
//! retranslation can be dropped in.

use crate::error::Error;
use vstd::prelude::*;

verus! {

/// One file's part of a group export: its path, its lines, and the
/// file's own reconstruction envelope.
pub struct GroupPiece<D> {
    pub path: String,
    pub lines: Vec<Vec<u8>>,
    pub inner_info: D,
}

/// One file's entry in a group envelope.
pub struct TxtGroupLocalDeInfo<D> {
    pub path: String,
    pub start: usize,
    pub end: usize,
    pub inner_info: D,
}

/// The reconstruction envelope of a group export.
pub struct TxtGroupDeInfo<L, D> {
    pub languages: Vec<L>,
    pub count: usize,
    pub info: Vec<TxtGroupLocalDeInfo<D>>,
}

/// The byte views of a list of byte vectors.
pub open spec fn bytes_views(vs: Seq<Vec<u8>>) -> Seq<Seq<u8>> {
    vs.map_values(|v: Vec<u8>| v@)
}

/// The concatenated lines of a list of pieces.
pub open spec fn group_lines<D>(ps: Seq<GroupPiece<D>>) -> Seq<Seq<u8>>
    decreases ps.len(),
{
    if ps.len() == 0 {
        Seq::empty()
    } else {
        bytes_views(ps[0].lines@) + group_lines(ps.skip(1))
    }
}

/// The envelope entries of a list of pieces, with `c` lines already
/// written: each file's path, line range and inner envelope.
pub open spec fn group_infos<D>(ps: Seq<GroupPiece<D>>, c: int) -> Seq<
    (Seq<char>, int, int, D),
>
    decreases ps.len(),
{
    if ps.len() == 0 {
        Seq::empty()
    } else {
        let n = ps[0].lines@.len() as int;
        seq![(ps[0].path@, c, c + n, ps[0].inner_info)] + group_infos(ps.skip(1), c + n)
    }
}

/// The view of one envelope entry.
pub open spec fn info_view<D>(e: TxtGroupLocalDeInfo<D>) -> (Seq<char>, int, int, D) {
    (e.path@, e.start as int, e.end as int, e.inner_info)
}

/// The views of a list of envelope entries.
pub open spec fn info_views<D>(es: Seq<TxtGroupLocalDeInfo<D>>) -> Seq<(Seq<char>, int, int, D)> {
    es.map_values(|e: TxtGroupLocalDeInfo<D>| info_view(e))
}

/// Concatenates per-file exports into one line list and its group
/// envelope entries.
pub fn group_assemble<D>(pieces: Vec<GroupPiece<D>>) -> (r: (
    Vec<Vec<u8>>,
    Vec<TxtGroupLocalDeInfo<D>>,
))
    ensures
        bytes_views(r.0@) == group_lines(pieces@),
        info_views(r.1@) == group_infos(pieces@, 0),
        r.0@.len() == group_lines(pieces@).len(),
{
    let ghost pv = pieces@;
    let mut rest = pieces;
    let mut lines: Vec<Vec<u8>> = Vec::new();
    let mut info: Vec<TxtGroupLocalDeInfo<D>> = Vec::new();
    proof {
        assert(Seq::<Seq<u8>>::empty() + group_lines(pv) =~= group_lines(pv));
        assert(Seq::<(Seq<char>, int, int, D)>::empty() + group_infos(pv, 0) =~= group_infos(
            pv,
            0,
        ));
        assert(pv.subrange(0, pv.len() as int) =~= pv);
    }
    while rest.len() > 0
        invariant
            rest@.len() <= pv.len(),
            rest@ == pv.subrange(pv.len() - rest@.len(), pv.len() as int),
            group_lines(pv) == bytes_views(lines@) + group_lines(rest@),
            group_infos(pv, 0) == info_views(info@) + group_infos(rest@, lines@.len() as int),
        decreases rest@.len(),
    {
        let ghost prev_rest = rest@;
        let piece = rest.remove(0);
        proof {
            assert(rest@ =~= prev_rest.skip(1));
            assert(piece == prev_rest[0]);
            assert(rest@ =~= pv.subrange(pv.len() - rest@.len(), pv.len() as int));
        }
        let start = lines.len();
        let ghost prev_lines = bytes_views(lines@);
        let mut piece_lines = piece.lines;
        let ghost plv = bytes_views(piece_lines@);
        while piece_lines.len() > 0
            invariant
                bytes_views(lines@) == prev_lines + plv.subrange(
                    0,
                    plv.len() - piece_lines@.len(),
                ),
                piece_lines@.len() <= plv.len(),
                bytes_views(piece_lines@) == plv.subrange(
                    plv.len() - piece_lines@.len(),
                    plv.len() as int,
                ),
            decreases piece_lines@.len(),
        {
            let ghost before = bytes_views(lines@);
            let ghost pbefore = bytes_views(piece_lines@);
            let line = piece_lines.remove(0);
            lines.push(line);
            proof {
                assert(bytes_views(lines@) =~= before + seq![line@]);
                assert(bytes_views(piece_lines@) =~= pbefore.skip(1));
                assert(line@ == pbefore[0]);
                assert(before + seq![line@] =~= prev_lines + plv.subrange(
                    0,
                    plv.len() - piece_lines@.len(),
                ));
                assert(bytes_views(piece_lines@) =~= plv.subrange(
                    plv.len() - piece_lines@.len(),
                    plv.len() as int,
                ));
            }
        }
        let end = lines.len();
        let entry = TxtGroupLocalDeInfo {
            path: piece.path,
            start,
            end,
            inner_info: piece.inner_info,
        };
        let ghost prev_info = info_views(info@);
        info.push(entry);
        proof {
            assert(bytes_views(piece_lines@) =~= Seq::<Seq<u8>>::empty());
            assert(plv.subrange(0, plv.len() as int) =~= plv);
            assert(bytes_views(lines@) =~= prev_lines + plv);
            assert(info_views(info@) =~= prev_info + seq![info_view(entry)]);
            assert(group_lines(prev_rest) == plv + group_lines(rest@));
            assert(prev_lines + (plv + group_lines(rest@)) =~= (prev_lines + plv) + group_lines(
                rest@,
            ));
            assert(group_infos(prev_rest, start as int) == seq![
                (prev_rest[0].path@, start as int, end as int, prev_rest[0].inner_info),
            ] + group_infos(rest@, end as int));
            assert(info_view(entry) == (prev_rest[0].path@, start as int, end as int, prev_rest[
                0].inner_info));
            assert(prev_info + (seq![info_view(entry)] + group_infos(rest@, end as int)) =~= (
            prev_info + seq![info_view(entry)]) + group_infos(rest@, end as int));
        }
    }
    proof {
        assert(rest@ =~= Seq::<GroupPiece<D>>::empty());
        assert(bytes_views(lines@) + Seq::<Seq<u8>>::empty() =~= bytes_views(lines@));
        assert(info_views(info@) + Seq::<(Seq<char>, int, int, D)>::empty() =~= info_views(
            info@,
        ));
    }
    (lines, info)
}

/// True when `path` is among `files`.
pub open spec fn path_known(files: Seq<String>, path: Seq<char>) -> bool {
    exists|i: int| 0 <= i < files.len() && (#[trigger] files[i])@ == path
}

/// Decides whether `path` is among `files`.
pub fn path_known_exec(files: &Vec<String>, path: &String) -> (r: bool)
    ensures
        r == path_known(files@, path@),
{
    let mut i: usize = 0;
    while i < files.len()
        invariant
            i <= files@.len(),
            forall|j: int| 0 <= j < i ==> (#[trigger] files@[j])@ != path@,
        decreases files@.len() - i,
    {
        if files[i].eq(path) {
            return true;
        }
        i = i + 1;
    }
    false
}

/// The import work a group envelope stands for: per entry whose path is
/// still among the discovered files, its path, line range and inner
/// envelope; an unknown path is silently skipped.  A range beyond the
/// line list is the failure.
pub open spec fn spec_group_split<D>(
    es: Seq<TxtGroupLocalDeInfo<D>>,
    total: int,
    files: Seq<String>,
) -> Result<Seq<(Seq<char>, int, int, D)>, Error>
    decreases es.len(),
{
    if es.len() == 0 {
        Ok(Seq::empty())
    } else {
        let e = es[0];
        if !path_known(files, e.path@) {
            spec_group_split(es.skip(1), total, files)
        } else if !(e.start <= e.end && e.end <= total) {
            Err(Error::InvalidRange { max: total as usize })
        } else {
            match spec_group_split(es.skip(1), total, files) {
                Err(err) => Err(err),
                Ok(rest) => Ok(seq![info_view(e)] + rest),
            }
        }
    }
}

/// Splits a group envelope into per-file import work.  The line count
/// must equal the envelope's recorded count, or nothing is imported;
/// entries whose paths are gone are skipped.
pub fn group_split<D>(
    info: Vec<TxtGroupLocalDeInfo<D>>,
    count: usize,
    total_lines: usize,
    files: &Vec<String>,
) -> (r: Result<Vec<TxtGroupLocalDeInfo<D>>, Error>)
    ensures
        total_lines != count ==> r == Err::<Vec<TxtGroupLocalDeInfo<D>>, Error>(
            Error::LineCountDoesntMatch { expected: count, got: total_lines },
        ),
        total_lines == count ==> match r {
            Ok(v) => spec_group_split(info@, total_lines as int, files@) == Ok::<_, Error>(
                info_views(v@),
            ),
            Err(e) => spec_group_split(info@, total_lines as int, files@) == Err::<
                Seq<(Seq<char>, int, int, D)>,
                _,
            >(e),
        },
{
    if total_lines != count {
        return Err(Error::LineCountDoesntMatch { expected: count, got: total_lines });
    }
    let ghost iv = info@;
    let mut rest = info;
    let mut out: Vec<TxtGroupLocalDeInfo<D>> = Vec::new();
    proof {
        assert(rest@ =~= iv.subrange(iv.len() - rest@.len(), iv.len() as int));
        if spec_group_split(iv, total_lines as int, files@) is Ok {
            let o = spec_group_split(iv, total_lines as int, files@)->Ok_0;
            assert(Seq::<(Seq<char>, int, int, D)>::empty() + o =~= o);
        }
    }
    while rest.len() > 0
        invariant
            iv == info@,
            total_lines == count,
            rest@.len() <= iv.len(),
            rest@ == iv.subrange(iv.len() - rest@.len(), iv.len() as int),
            match spec_group_split(rest@, total_lines as int, files@) {
                Ok(o) => spec_group_split(iv, total_lines as int, files@) == Ok::<_, Error>(
                    info_views(out@) + o,
                ),
                Err(e) => spec_group_split(iv, total_lines as int, files@) == Err::<
                    Seq<(Seq<char>, int, int, D)>,
                    _,
                >(e),
            },
        decreases rest@.len(),
    {
        let ghost prev_rest = rest@;
        let e = rest.remove(0);
        proof {
            assert(rest@ =~= prev_rest.skip(1));
            assert(e == prev_rest[0]);
            assert(rest@ =~= iv.subrange(iv.len() - rest@.len(), iv.len() as int));
        }
        if path_known_exec(files, &e.path) {
            if !(e.start <= e.end && e.end <= total_lines) {
                return Err(Error::InvalidRange { max: total_lines });
            }
            let ghost prev_out = info_views(out@);
            let ghost ev = info_view(e);
            out.push(e);
            proof {
                assert(info_views(out@) =~= prev_out + seq![ev]);
                if spec_group_split(rest@, total_lines as int, files@) is Ok {
                    let o = spec_group_split(rest@, total_lines as int, files@)->Ok_0;
                    assert(prev_out + (seq![ev] + o) =~= (prev_out + seq![ev]) + o);
                }
            }
        }
    }
    proof {
        assert(rest@ =~= Seq::<TxtGroupLocalDeInfo<D>>::empty());
        assert(info_views(out@) + Seq::<(Seq<char>, int, int, D)>::empty() =~= info_views(out@));
    }
    Ok(out)
}

/// A group of container files sharing a common root, processed as one
/// batch.
pub struct DecimaGroup {
    pub base_path: String,
    pub files: Vec<String>,
}

impl DecimaGroup {
    /// Builds the group from the discovered file list; a group needs at
    /// least one file.
    pub fn new(base_path: String, files: Vec<String>) -> (r: Result<DecimaGroup, Error>)
        ensures
            match r {
                Ok(g) => files@.len() > 0 && g.base_path@ == base_path@ && g.files@ == files@,
                Err(e) => files@.len() == 0 && e == Error::NoFileFound("core"),
            },
    {
        if files.len() == 0 {
            return Err(Error::NoFileFound("core"));
        }
        Ok(DecimaGroup { base_path, files })
    }
}

} // verus!
