//! Horizon Zero Dawn container structures: the payload variants behind
//! each chunk magic, their wire format, and the proof that decoding
//! followed by encoding is the identity on the bytes.
//!
//! A `Localized` payload holds a uuid and one narrow string per language.
//! A `Cutscene` payload holds a uuid, an opaque block, one timed string
//! group per language (kept in file order; their codes must be distinct
//! and in range) and five trailing opaque bytes.  Any other magic is kept
//! verbatim as `Others`.

use crate::chunks::{
    record_views, record_wf, records_wf, spec_encode_records, spec_parse_records, RawRecord,
    RuntimeSize,
};
use crate::error::Error;
use crate::fixed_map::FixedMap;
use crate::hzd::{LangMap, Language};
use crate::types::u16string::{
    lemma_wide_roundtrip, read_wide_string, spec_encode_wide, spec_parse_wide, U16String,
};
use crate::types::u8string::{
    lemma_narrow_roundtrip, read_narrow_string, spec_encode_narrow, spec_parse_narrow, U8String,
};
use crate::wire::{copy_bytes, read_u32_le, read_u64_le, take_bytes, write_u32_le, write_u64_le};
use vstd::bytes::{
    lemma_auto_spec_u32_to_from_le_bytes, lemma_auto_spec_u64_to_from_le_bytes,
    spec_u32_from_le_bytes, spec_u32_to_le_bytes, spec_u64_from_le_bytes, spec_u64_to_le_bytes,
};
use vstd::prelude::*;

verus! {

/// The chunk magic of a `Localized` payload.
pub const LOCALIZED_MAGIC: u64 = 0xb89a596b420bb2e2;

/// The chunk magic of a `Cutscene` payload.
pub const CUTSCENE_MAGIC: u64 = 0x5a3ecd4ada693d7f;

// ---------------------------------------------------------------- models

/// The mathematical content of a `Localized` payload.
pub ghost struct LocalizedModel {
    pub uuid: Seq<u8>,
    pub strings: Seq<Seq<u8>>,
}

/// The mathematical content of one timed cutscene line.
pub ghost struct EntryModel {
    pub units: Seq<u16>,
    pub timing: u64,
}

/// The mathematical content of one per-language cutscene group.
pub ghost struct GroupModel {
    pub code: u32,
    pub entries: Seq<EntryModel>,
}

/// The mathematical content of a `Cutscene` payload.  `block` holds the
/// opaque block including its four extra bytes; `tail` the five trailing
/// opaque bytes.
pub ghost struct CutsceneModel {
    pub uuid: Seq<u8>,
    pub block: Seq<u8>,
    pub groups: Seq<GroupModel>,
    pub tail: Seq<u8>,
}

/// The mathematical content of a chunk payload.
pub ghost enum VariantModel {
    Localized(LocalizedModel),
    Cutscene(CutsceneModel),
    Others(Seq<u8>),
}

/// The mathematical content of a chunk.
pub ghost struct ChunkModel {
    pub magic: u64,
    pub variant: VariantModel,
}

// ------------------------------------------------------- well-formedness

pub open spec fn wf_localized(m: LocalizedModel) -> bool {
    &&& m.uuid.len() == 16
    &&& m.strings.len() == 21
    &&& forall|i: int| 0 <= i < m.strings.len() ==> (#[trigger] m.strings[i]).len() <= 0xffff
}

pub open spec fn wf_entry(e: EntryModel) -> bool {
    e.units.len() <= 0xffff_ffff && crate::utf16::valid_utf16(e.units)
}

pub open spec fn wf_group(g: GroupModel) -> bool {
    &&& g.code < 21
    &&& g.entries.len() <= 0xffff_ffff
    &&& forall|i: int| 0 <= i < g.entries.len() ==> wf_entry(#[trigger] g.entries[i])
}

/// No two groups share a language code.
pub open spec fn distinct_codes(gs: Seq<GroupModel>) -> bool {
    forall|i: int, j: int|
        0 <= i < j < gs.len() ==> (#[trigger] gs[i]).code != (#[trigger] gs[j]).code
}

pub open spec fn wf_cutscene(m: CutsceneModel) -> bool {
    &&& m.uuid.len() == 16
    &&& 4 <= m.block.len() <= 0xffff_ffff + 4
    &&& m.groups.len() == 21
    &&& forall|i: int| 0 <= i < m.groups.len() ==> wf_group(#[trigger] m.groups[i])
    &&& distinct_codes(m.groups)
    &&& m.tail.len() == 5
}

pub open spec fn wf_variant(v: VariantModel) -> bool {
    match v {
        VariantModel::Localized(m) => wf_localized(m),
        VariantModel::Cutscene(m) => wf_cutscene(m),
        VariantModel::Others(d) => true,
    }
}

/// A chunk is well formed when its payload is and fits the size field.
pub open spec fn wf_chunk(c: ChunkModel) -> bool {
    &&& wf_variant(c.variant)
    &&& spec_encode_variant(c.variant).len() <= 0xffff_ffff
}

pub open spec fn wf_chunks(cs: Seq<ChunkModel>) -> bool {
    forall|i: int| 0 <= i < cs.len() ==> wf_chunk(#[trigger] cs[i])
}

// --------------------------------------------------------------- encode

/// The concatenated narrow encodings of a string list.
pub open spec fn spec_narrow_seq_bytes(ss: Seq<Seq<u8>>) -> Seq<u8>
    decreases ss.len(),
{
    if ss.len() == 0 {
        Seq::empty()
    } else {
        spec_encode_narrow(ss[0]) + spec_narrow_seq_bytes(ss.skip(1))
    }
}

pub open spec fn spec_encode_localized(m: LocalizedModel) -> Seq<u8> {
    m.uuid + spec_narrow_seq_bytes(m.strings)
}

pub open spec fn spec_entry_bytes(e: EntryModel) -> Seq<u8> {
    spec_encode_wide(e.units) + spec_u64_to_le_bytes(e.timing)
}

pub open spec fn spec_entries_bytes(es: Seq<EntryModel>) -> Seq<u8>
    decreases es.len(),
{
    if es.len() == 0 {
        Seq::empty()
    } else {
        spec_entry_bytes(es[0]) + spec_entries_bytes(es.skip(1))
    }
}

pub open spec fn spec_group_bytes(g: GroupModel) -> Seq<u8> {
    spec_u32_to_le_bytes(g.code) + spec_u32_to_le_bytes(g.entries.len() as u32)
        + spec_entries_bytes(g.entries)
}

pub open spec fn spec_groups_bytes(gs: Seq<GroupModel>) -> Seq<u8>
    decreases gs.len(),
{
    if gs.len() == 0 {
        Seq::empty()
    } else {
        spec_group_bytes(gs[0]) + spec_groups_bytes(gs.skip(1))
    }
}

pub open spec fn spec_encode_cutscene(m: CutsceneModel) -> Seq<u8> {
    m.uuid + spec_u32_to_le_bytes((m.block.len() - 4) as u32) + m.block + spec_u32_to_le_bytes(21)
        + spec_groups_bytes(m.groups) + m.tail
}

pub open spec fn spec_encode_variant(v: VariantModel) -> Seq<u8> {
    match v {
        VariantModel::Localized(m) => spec_encode_localized(m),
        VariantModel::Cutscene(m) => spec_encode_cutscene(m),
        VariantModel::Others(d) => d,
    }
}

/// The record stream that a chunk list serializes to.
pub open spec fn chunk_records(cs: Seq<ChunkModel>) -> Seq<(u64, Seq<u8>)> {
    cs.map_values(|c: ChunkModel| (c.magic, spec_encode_variant(c.variant)))
}

/// The bytes of a whole container.
pub open spec fn spec_encode_chunks(cs: Seq<ChunkModel>) -> Seq<u8> {
    spec_encode_records(chunk_records(cs))
}

// ---------------------------------------------------------------- parse

/// Reads `n` consecutive narrow strings starting at `pos`.
pub open spec fn spec_parse_strings(d: Seq<u8>, pos: int, n: int) -> Result<
    (Seq<Seq<u8>>, int),
    Error,
>
    decreases n,
{
    if n <= 0 {
        Ok((Seq::empty(), pos))
    } else {
        match spec_parse_narrow(d, pos) {
            Err(e) => Err(e),
            Ok((s, p2)) => match spec_parse_strings(d, p2, n - 1) {
                Err(e) => Err(e),
                Ok((rest, end)) => Ok((seq![s] + rest, end)),
            },
        }
    }
}

/// Reads a `Localized` payload; it must be consumed exactly.
pub open spec fn spec_parse_localized(payload: Seq<u8>) -> Result<LocalizedModel, Error> {
    if payload.len() < 16 {
        Err(Error::UnexpectedEof)
    } else {
        match spec_parse_strings(payload, 16, 21) {
            Err(e) => Err(e),
            Ok((ss, end)) => if end != payload.len() {
                Err(Error::InvalidStructure)
            } else {
                Ok(LocalizedModel { uuid: payload.subrange(0, 16), strings: ss })
            },
        }
    }
}

/// Reads `n` consecutive timed-line entries starting at `pos`.
pub open spec fn spec_parse_entries(d: Seq<u8>, pos: int, n: int) -> Result<
    (Seq<EntryModel>, int),
    Error,
>
    decreases n,
{
    if n <= 0 {
        Ok((Seq::empty(), pos))
    } else {
        match spec_parse_wide(d, pos) {
            Err(e) => Err(e),
            Ok((u, p2)) => if p2 + 8 > d.len() {
                Err(Error::UnexpectedEof)
            } else {
                let timing = spec_u64_from_le_bytes(d.subrange(p2, p2 + 8));
                match spec_parse_entries(d, p2 + 8, n - 1) {
                    Err(e) => Err(e),
                    Ok((rest, end)) => Ok((seq![EntryModel { units: u, timing }] + rest, end)),
                }
            },
        }
    }
}

/// Reads `n` consecutive per-language groups starting at `pos`.  A group
/// code outside the language range is a structural failure.
pub open spec fn spec_parse_groups(d: Seq<u8>, pos: int, n: int) -> Result<
    (Seq<GroupModel>, int),
    Error,
>
    decreases n,
{
    if n <= 0 {
        Ok((Seq::empty(), pos))
    } else if pos + 8 > d.len() {
        Err(Error::UnexpectedEof)
    } else {
        let code = spec_u32_from_le_bytes(d.subrange(pos, pos + 4));
        let count = spec_u32_from_le_bytes(d.subrange(pos + 4, pos + 8)) as int;
        if code >= 21 {
            Err(Error::InvalidStructure)
        } else {
            match spec_parse_entries(d, pos + 8, count) {
                Err(e) => Err(e),
                Ok((es, p2)) => match spec_parse_groups(d, p2, n - 1) {
                    Err(e) => Err(e),
                    Ok((rest, end)) => Ok((seq![GroupModel { code, entries: es }] + rest, end)),
                },
            }
        }
    }
}

/// Reads a `Cutscene` payload; it must be consumed exactly, its language
/// count must match the enumeration, and the group codes must be
/// distinct.
pub open spec fn spec_parse_cutscene(payload: Seq<u8>) -> Result<CutsceneModel, Error> {
    if payload.len() < 20 {
        Err(Error::UnexpectedEof)
    } else {
        let ub_len = spec_u32_from_le_bytes(payload.subrange(16, 20)) as int;
        if 20 + ub_len + 4 + 4 > payload.len() {
            Err(Error::UnexpectedEof)
        } else {
            let block = payload.subrange(20, 20 + ub_len + 4);
            let p = 20 + ub_len + 4;
            let lang_count = spec_u32_from_le_bytes(payload.subrange(p, p + 4));
            if lang_count != 21 {
                Err(Error::InvalidStructure)
            } else {
                match spec_parse_groups(payload, p + 4, 21) {
                    Err(e) => Err(e),
                    Ok((gs, end)) => if !distinct_codes(gs) {
                        Err(Error::InvalidStructure)
                    } else if end + 5 > payload.len() {
                        Err(Error::UnexpectedEof)
                    } else if end + 5 != payload.len() {
                        Err(Error::InvalidStructure)
                    } else {
                        Ok(
                            CutsceneModel {
                                uuid: payload.subrange(0, 16),
                                block,
                                groups: gs,
                                tail: payload.subrange(end, end + 5),
                            },
                        )
                    },
                }
            }
        }
    }
}

/// Interprets one payload by its magic; an unknown magic is preserved
/// verbatim.
pub open spec fn spec_parse_variant(magic: u64, payload: Seq<u8>) -> Result<VariantModel, Error> {
    if magic == LOCALIZED_MAGIC {
        match spec_parse_localized(payload) {
            Err(e) => Err(e),
            Ok(m) => Ok(VariantModel::Localized(m)),
        }
    } else if magic == CUTSCENE_MAGIC {
        match spec_parse_cutscene(payload) {
            Err(e) => Err(e),
            Ok(m) => Ok(VariantModel::Cutscene(m)),
        }
    } else {
        Ok(VariantModel::Others(payload))
    }
}

/// Interprets every record of a stream.
pub open spec fn spec_chunks_from_records(rs: Seq<(u64, Seq<u8>)>) -> Result<Seq<ChunkModel>, Error>
    decreases rs.len(),
{
    if rs.len() == 0 {
        Ok(Seq::empty())
    } else {
        match spec_parse_variant(rs[0].0, rs[0].1) {
            Err(e) => Err(e),
            Ok(v) => match spec_chunks_from_records(rs.skip(1)) {
                Err(e) => Err(e),
                Ok(rest) => Ok(seq![ChunkModel { magic: rs[0].0, variant: v }] + rest),
            },
        }
    }
}

/// Decodes a whole container into chunks.
pub open spec fn spec_parse_chunks(d: Seq<u8>) -> Result<Seq<ChunkModel>, Error> {
    match spec_parse_records(d, 0) {
        Err(e) => Err(e),
        Ok(rs) => spec_chunks_from_records(rs),
    }
}

// ----------------------------------------------------- round-trip proof

/// Parsed narrow string lists re-encode to the bytes they came from.
proof fn lemma_strings_roundtrip(d: Seq<u8>, pos: int, n: int)
    requires
        0 <= pos <= d.len(),
        0 <= n,
        spec_parse_strings(d, pos, n) is Ok,
    ensures
        ({
            let (ss, end) = spec_parse_strings(d, pos, n)->Ok_0;
            &&& ss.len() == n
            &&& pos <= end <= d.len()
            &&& forall|i: int| 0 <= i < n ==> (#[trigger] ss[i]).len() <= 0xffff
            &&& spec_narrow_seq_bytes(ss) == d.subrange(pos, end)
        }),
    decreases n,
{
    let (ss, end) = spec_parse_strings(d, pos, n)->Ok_0;
    if n == 0 {
        assert(spec_narrow_seq_bytes(ss) =~= d.subrange(pos, pos));
    } else {
        let (s, p2) = spec_parse_narrow(d, pos)->Ok_0;
        lemma_narrow_roundtrip(d, pos);
        lemma_strings_roundtrip(d, p2, n - 1);
        let (rest, end2) = spec_parse_strings(d, p2, n - 1)->Ok_0;
        assert(ss == seq![s] + rest);
        assert(ss[0] == s);
        assert(ss.skip(1) =~= rest);
        assert(spec_narrow_seq_bytes(ss) =~= d.subrange(pos, end));
    }
}

/// A parsed `Localized` payload re-encodes to exactly that payload.
pub proof fn lemma_localized_roundtrip(payload: Seq<u8>)
    requires
        spec_parse_localized(payload) is Ok,
    ensures
        wf_localized(spec_parse_localized(payload)->Ok_0),
        spec_encode_localized(spec_parse_localized(payload)->Ok_0) == payload,
{
    let m = spec_parse_localized(payload)->Ok_0;
    lemma_strings_roundtrip(payload, 16, 21);
    assert(spec_encode_localized(m) =~= payload);
}

/// Parsed entry lists re-encode to the bytes they came from.
proof fn lemma_entries_roundtrip(d: Seq<u8>, pos: int, n: int)
    requires
        0 <= pos <= d.len(),
        0 <= n,
        spec_parse_entries(d, pos, n) is Ok,
    ensures
        ({
            let (es, end) = spec_parse_entries(d, pos, n)->Ok_0;
            &&& es.len() == n
            &&& pos <= end <= d.len()
            &&& forall|i: int| 0 <= i < n ==> wf_entry(#[trigger] es[i])
            &&& spec_entries_bytes(es) == d.subrange(pos, end)
        }),
    decreases n,
{
    lemma_auto_spec_u64_to_from_le_bytes();
    let (es, end) = spec_parse_entries(d, pos, n)->Ok_0;
    if n == 0 {
        assert(spec_entries_bytes(es) =~= d.subrange(pos, pos));
    } else {
        let (u, p2) = spec_parse_wide(d, pos)->Ok_0;
        lemma_wide_roundtrip(d, pos);
        let timing = spec_u64_from_le_bytes(d.subrange(p2, p2 + 8));
        lemma_entries_roundtrip(d, p2 + 8, n - 1);
        let (rest, end2) = spec_parse_entries(d, p2 + 8, n - 1)->Ok_0;
        let e0 = EntryModel { units: u, timing };
        assert(es == seq![e0] + rest);
        assert(es[0] == e0);
        assert(es.skip(1) =~= rest);
        assert(spec_u64_to_le_bytes(timing) =~= d.subrange(p2, p2 + 8));
        assert(spec_entry_bytes(e0) =~= d.subrange(pos, p2 + 8));
        assert(spec_entries_bytes(es) =~= d.subrange(pos, end));
    }
}

/// Parsed group lists re-encode to the bytes they came from.
proof fn lemma_groups_roundtrip(d: Seq<u8>, pos: int, n: int)
    requires
        0 <= pos <= d.len(),
        0 <= n,
        spec_parse_groups(d, pos, n) is Ok,
    ensures
        ({
            let (gs, end) = spec_parse_groups(d, pos, n)->Ok_0;
            &&& gs.len() == n
            &&& pos <= end <= d.len()
            &&& forall|i: int| 0 <= i < n ==> wf_group(#[trigger] gs[i])
            &&& spec_groups_bytes(gs) == d.subrange(pos, end)
        }),
    decreases n,
{
    lemma_auto_spec_u32_to_from_le_bytes();
    let (gs, end) = spec_parse_groups(d, pos, n)->Ok_0;
    if n == 0 {
        assert(spec_groups_bytes(gs) =~= d.subrange(pos, pos));
    } else {
        let code = spec_u32_from_le_bytes(d.subrange(pos, pos + 4));
        let count = spec_u32_from_le_bytes(d.subrange(pos + 4, pos + 8)) as int;
        lemma_entries_roundtrip(d, pos + 8, count);
        let (es, p2) = spec_parse_entries(d, pos + 8, count)->Ok_0;
        lemma_groups_roundtrip(d, p2, n - 1);
        let (rest, end2) = spec_parse_groups(d, p2, n - 1)->Ok_0;
        let g0 = GroupModel { code, entries: es };
        assert(gs == seq![g0] + rest);
        assert(gs[0] == g0);
        assert(gs.skip(1) =~= rest);
        assert(spec_u32_to_le_bytes(code) =~= d.subrange(pos, pos + 4));
        assert(spec_u32_to_le_bytes(count as u32) =~= d.subrange(pos + 4, pos + 8));
        assert(spec_group_bytes(g0) =~= d.subrange(pos, p2));
        assert(spec_groups_bytes(gs) =~= d.subrange(pos, end));
    }
}

/// A parsed `Cutscene` payload re-encodes to exactly that payload.
pub proof fn lemma_cutscene_roundtrip(payload: Seq<u8>)
    requires
        spec_parse_cutscene(payload) is Ok,
    ensures
        wf_cutscene(spec_parse_cutscene(payload)->Ok_0),
        spec_encode_cutscene(spec_parse_cutscene(payload)->Ok_0) == payload,
{
    lemma_auto_spec_u32_to_from_le_bytes();
    let m = spec_parse_cutscene(payload)->Ok_0;
    let ub_len = spec_u32_from_le_bytes(payload.subrange(16, 20)) as int;
    let p = 20 + ub_len + 4;
    lemma_groups_roundtrip(payload, p + 4, 21);
    let (gs, end) = spec_parse_groups(payload, p + 4, 21)->Ok_0;
    assert(m.block.len() - 4 == ub_len);
    assert(spec_u32_to_le_bytes((m.block.len() - 4) as u32) =~= payload.subrange(16, 20));
    assert(spec_u32_to_le_bytes(21) =~= payload.subrange(p, p + 4));
    assert(spec_encode_cutscene(m) =~= payload);
}

/// A parsed payload re-encodes to exactly that payload.
pub proof fn lemma_variant_roundtrip(magic: u64, payload: Seq<u8>)
    requires
        spec_parse_variant(magic, payload) is Ok,
    ensures
        wf_variant(spec_parse_variant(magic, payload)->Ok_0),
        spec_encode_variant(spec_parse_variant(magic, payload)->Ok_0) == payload,
{
    if magic == LOCALIZED_MAGIC {
        lemma_localized_roundtrip(payload);
    } else if magic == CUTSCENE_MAGIC {
        lemma_cutscene_roundtrip(payload);
    }
}

/// Chunks parsed from records re-encode to the same record stream.
proof fn lemma_chunks_from_records_roundtrip(rs: Seq<(u64, Seq<u8>)>)
    requires
        records_wf(rs),
        spec_chunks_from_records(rs) is Ok,
    ensures
        ({
            let cs = spec_chunks_from_records(rs)->Ok_0;
            &&& wf_chunks(cs)
            &&& chunk_records(cs) == rs
        }),
    decreases rs.len(),
{
    let cs = spec_chunks_from_records(rs)->Ok_0;
    if rs.len() == 0 {
        assert(chunk_records(cs) =~= rs);
    } else {
        lemma_variant_roundtrip(rs[0].0, rs[0].1);
        let v = spec_parse_variant(rs[0].0, rs[0].1)->Ok_0;
        assert(records_wf(rs.skip(1))) by {
            assert(forall|i: int|
                0 <= i < rs.skip(1).len() ==> #[trigger] rs.skip(1)[i] == rs[i + 1]);
        }
        lemma_chunks_from_records_roundtrip(rs.skip(1));
        let rest = spec_chunks_from_records(rs.skip(1))->Ok_0;
        let c0 = ChunkModel { magic: rs[0].0, variant: v };
        assert(cs == seq![c0] + rest);
        assert(cs[0] == c0);
        assert(cs.skip(1) =~= rest);
        assert forall|i: int| 0 <= i < cs.len() implies chunk_records(cs)[i] == rs[i] by {
            if i > 0 {
                assert(cs[i] == rest[i - 1]);
                assert(chunk_records(rest)[i - 1] == rs.skip(1)[i - 1]);
                assert(rs.skip(1)[i - 1] == rs[i]);
            }
        }
        assert(chunk_records(cs) =~= rs);
    }
}

/// Decoding a container and encoding it again yields byte-identical
/// output: the pure round-trip over every input that decodes at all.
pub proof fn lemma_chunks_roundtrip(d: Seq<u8>)
    requires
        spec_parse_chunks(d) is Ok,
    ensures
        wf_chunks(spec_parse_chunks(d)->Ok_0),
        spec_encode_chunks(spec_parse_chunks(d)->Ok_0) == d,
{
    let rs = spec_parse_records(d, 0)->Ok_0;
    crate::chunks::lemma_records_roundtrip(d, 0);
    lemma_chunks_from_records_roundtrip(rs);
    assert(d.subrange(0, d.len() as int) =~= d);
}

// ----------------------------------------------------- executable types

/// One chunk of the container.
pub struct Chunk {
    pub magic: u64,
    pub variant: ChunkVariants,
}

/// The payload variants of this title.
pub enum ChunkVariants {
    Localized(Localized),
    Cutscene(Cutscene),
    /// A chunk whose magic is unrecognized; its bytes pass through
    /// unmodified.
    Others { data: Vec<u8> },
}

/// A uuid with one narrow string per language.
pub struct Localized {
    pub uuid: Vec<u8>,
    pub strings: LangMap<U8String>,
}

/// A uuid, an opaque block, one timed string group per language (in file
/// order) and five trailing opaque bytes.
pub struct Cutscene {
    pub uuid: Vec<u8>,
    pub useless_block: Vec<u8>,
    pub groups: Vec<CutsceneStringGroup>,
    pub unk: Vec<u8>,
}

/// The timed lines of one language.
pub struct CutsceneStringGroup {
    pub lang_code: u32,
    pub strings_data: Vec<CutsceneStringData>,
}

/// One timed line.
pub struct CutsceneStringData {
    pub string: U16String,
    pub timing: u64,
}

/// The byte-sequence views of a list of narrow strings.
pub open spec fn string_views(ss: Seq<U8String>) -> Seq<Seq<u8>> {
    ss.map_values(|s: U8String| s@)
}

/// The models of a list of timed lines.
pub open spec fn entry_views(es: Seq<CutsceneStringData>) -> Seq<EntryModel> {
    es.map_values(|e: CutsceneStringData| e@)
}

/// The models of a list of groups.
pub open spec fn group_views(gs: Seq<CutsceneStringGroup>) -> Seq<GroupModel> {
    gs.map_values(|g: CutsceneStringGroup| g@)
}

impl View for CutsceneStringData {
    type V = EntryModel;

    open spec fn view(&self) -> EntryModel {
        EntryModel { units: self.string@, timing: self.timing }
    }
}

impl View for CutsceneStringGroup {
    type V = GroupModel;

    open spec fn view(&self) -> GroupModel {
        GroupModel { code: self.lang_code, entries: entry_views(self.strings_data@) }
    }
}

impl View for Cutscene {
    type V = CutsceneModel;

    open spec fn view(&self) -> CutsceneModel {
        CutsceneModel {
            uuid: self.uuid@,
            block: self.useless_block@,
            groups: group_views(self.groups@),
            tail: self.unk@,
        }
    }
}

impl View for Localized {
    type V = LocalizedModel;

    open spec fn view(&self) -> LocalizedModel {
        LocalizedModel { uuid: self.uuid@, strings: string_views(self.strings@) }
    }
}

impl View for ChunkVariants {
    type V = VariantModel;

    open spec fn view(&self) -> VariantModel {
        match self {
            ChunkVariants::Localized(m) => VariantModel::Localized(m@),
            ChunkVariants::Cutscene(m) => VariantModel::Cutscene(m@),
            ChunkVariants::Others { data } => VariantModel::Others(data@),
        }
    }
}

impl View for Chunk {
    type V = ChunkModel;

    open spec fn view(&self) -> ChunkModel {
        ChunkModel { magic: self.magic, variant: self.variant@ }
    }
}

impl ChunkVariants {
    /// The kind of the payload, by name.
    pub fn name(&self) -> (r: &'static str)
        ensures
            self is Localized ==> r@ == "Localized"@,
            self is Cutscene ==> r@ == "Cutscene"@,
            self is Others ==> r@ == "Others"@,
    {
        match self {
            ChunkVariants::Localized(_) => "Localized",
            ChunkVariants::Cutscene(_) => "Cutscene",
            ChunkVariants::Others { .. } => "Others",
        }
    }
}

// ------------------------------------------------------ executable parse

/// Reads a `Localized` payload.
pub fn parse_localized(payload: &Vec<u8>) -> (r: Result<Localized, Error>)
    ensures
        match r {
            Ok(m) => spec_parse_localized(payload@) == Ok::<_, Error>(m@),
            Err(e) => spec_parse_localized(payload@) == Err::<LocalizedModel, _>(e),
        },
{
    let n = payload.len();
    if n < 16 {
        return Err(Error::UnexpectedEof);
    }
    let uuid = take_bytes(payload, 0, 16);
    let mut strs: Vec<U8String> = Vec::new();
    let mut pos: usize = 16;
    let mut i: usize = 0;
    proof {
        assert(string_views(strs@) =~= Seq::<Seq<u8>>::empty());
        if spec_parse_strings(payload@, 16, 21) is Ok {
            let pr = spec_parse_strings(payload@, 16, 21)->Ok_0;
            assert(Seq::<Seq<u8>>::empty() + pr.0 =~= pr.0);
        }
    }
    while i < 21
        invariant
            i <= 21,
            pos <= payload@.len(),
            strs@.len() == i,
            match spec_parse_strings(payload@, pos as int, 21 - i) {
                Ok(pr) => spec_parse_strings(payload@, 16, 21) == Ok::<_, Error>(
                    (string_views(strs@) + pr.0, pr.1),
                ),
                Err(e) => spec_parse_strings(payload@, 16, 21) == Err::<(Seq<Seq<u8>>, int), _>(e),
            },
        decreases 21 - i,
    {
        match read_narrow_string(payload, pos) {
            Err(e) => {
                return Err(e);
            },
            Ok((s, p2)) => {
                let ghost prev = string_views(strs@);
                strs.push(s);
                proof {
                    assert(string_views(strs@) =~= prev + seq![s@]);
                    if spec_parse_strings(payload@, p2 as int, 21 - (i + 1)) is Ok {
                        let pr = spec_parse_strings(payload@, p2 as int, 21 - (i + 1))->Ok_0;
                        assert(prev + (seq![s@] + pr.0) =~= (prev + seq![s@]) + pr.0);
                    }
                }
                pos = p2;
                i = i + 1;
            },
        }
    }
    proof {
        let pr = spec_parse_strings(payload@, pos as int, 0)->Ok_0;
        assert(string_views(strs@) + pr.0 =~= string_views(strs@));
    }
    if pos != n {
        return Err(Error::InvalidStructure);
    }
    match LangMap::<U8String>::from_vec(strs) {
        Some(map) => {
            let m = Localized { uuid, strings: map };
            proof {
                assert(m@.uuid =~= payload@.subrange(0, 16));
            }
            Ok(m)
        },
        None => {
            proof {
                assert(false);
            }
            Err(Error::InvalidStructure)
        },
    }
}

/// Reads `count` timed-line entries starting at `pos`.
fn parse_entries(data: &Vec<u8>, pos: usize, count: usize) -> (r: Result<
    (Vec<CutsceneStringData>, usize),
    Error,
>)
    requires
        pos <= data@.len(),
    ensures
        match r {
            Ok((es, end)) => spec_parse_entries(data@, pos as int, count as int) == Ok::<_, Error>(
                (entry_views(es@), end as int),
            ) && pos <= end <= data@.len(),
            Err(e) => spec_parse_entries(data@, pos as int, count as int) == Err::<
                (Seq<EntryModel>, int),
                _,
            >(e),
        },
{
    let n = data.len();
    let mut out: Vec<CutsceneStringData> = Vec::new();
    let mut p: usize = pos;
    let mut i: usize = 0;
    proof {
        assert(entry_views(out@) =~= Seq::<EntryModel>::empty());
        if spec_parse_entries(data@, pos as int, count as int) is Ok {
            let pr = spec_parse_entries(data@, pos as int, count as int)->Ok_0;
            assert(Seq::<EntryModel>::empty() + pr.0 =~= pr.0);
        }
    }
    while i < count
        invariant
            i <= count,
            pos <= p <= data@.len(),
            n == data@.len(),
            out@.len() == i,
            match spec_parse_entries(data@, p as int, count - i) {
                Ok(pr) => spec_parse_entries(data@, pos as int, count as int) == Ok::<_, Error>(
                    (entry_views(out@) + pr.0, pr.1),
                ),
                Err(e) => spec_parse_entries(data@, pos as int, count as int) == Err::<
                    (Seq<EntryModel>, int),
                    _,
                >(e),
            },
        decreases count - i,
    {
        match read_wide_string(data, p) {
            Err(e) => {
                return Err(e);
            },
            Ok((string, p2)) => {
                if n - p2 < 8 {
                    return Err(Error::UnexpectedEof);
                }
                let timing = read_u64_le(data, p2);
                let entry = CutsceneStringData { string, timing };
                let ghost prev = entry_views(out@);
                out.push(entry);
                proof {
                    assert(entry_views(out@) =~= prev + seq![entry@]);
                    if spec_parse_entries(data@, p2 + 8, count - (i + 1)) is Ok {
                        let pr = spec_parse_entries(data@, p2 + 8, count - (i + 1))->Ok_0;
                        assert(prev + (seq![entry@] + pr.0) =~= (prev + seq![entry@]) + pr.0);
                    }
                }
                p = p2 + 8;
                i = i + 1;
            },
        }
    }
    proof {
        let pr = spec_parse_entries(data@, p as int, 0)->Ok_0;
        assert(entry_views(out@) + pr.0 =~= entry_views(out@));
    }
    Ok((out, p))
}

/// Decides whether the groups' language codes are pairwise distinct.
fn groups_distinct(groups: &Vec<CutsceneStringGroup>) -> (r: bool)
    ensures
        r == distinct_codes(group_views(groups@)),
{
    let n = groups.len();
    let mut i: usize = 0;
    while i < n
        invariant
            i <= n == groups@.len(),
            forall|a: int, b: int|
                0 <= a < b < groups@.len() && a < i ==> (#[trigger] group_views(groups@)[a]).code
                    != (#[trigger] group_views(groups@)[b]).code,
        decreases n - i,
    {
        let mut j: usize = i + 1;
        while j < n
            invariant
                i < j <= n == groups@.len(),
                forall|b: int|
                    i < b < j ==> (#[trigger] group_views(groups@)[b]).code != group_views(
                        groups@,
                    )[i as int].code,
            decreases n - j,
        {
            if groups[j].lang_code == groups[i].lang_code {
                proof {
                    assert(group_views(groups@)[i as int].code == groups@[i as int].lang_code);
                    assert(group_views(groups@)[j as int].code == groups@[j as int].lang_code);
                }
                return false;
            }
            j = j + 1;
        }
        i = i + 1;
    }
    true
}

/// Reads a `Cutscene` payload.
pub fn parse_cutscene(payload: &Vec<u8>) -> (r: Result<Cutscene, Error>)
    ensures
        match r {
            Ok(m) => spec_parse_cutscene(payload@) == Ok::<_, Error>(m@),
            Err(e) => spec_parse_cutscene(payload@) == Err::<CutsceneModel, _>(e),
        },
{
    let n = payload.len();
    if n < 20 {
        return Err(Error::UnexpectedEof);
    }
    let ub_len = read_u32_le(payload, 16) as usize;
    if n - 20 < 8 || ub_len > n - 28 {
        return Err(Error::UnexpectedEof);
    }
    let uuid = take_bytes(payload, 0, 16);
    let block = take_bytes(payload, 20, ub_len + 4);
    let p = 20 + ub_len + 4;
    let lang_count = read_u32_le(payload, p);
    if lang_count != 21 {
        return Err(Error::InvalidStructure);
    }
    let mut groups: Vec<CutsceneStringGroup> = Vec::new();
    let mut gpos: usize = p + 4;
    let mut i: usize = 0;
    proof {
        assert(group_views(groups@) =~= Seq::<GroupModel>::empty());
        if spec_parse_groups(payload@, p + 4, 21) is Ok {
            let pr = spec_parse_groups(payload@, p + 4, 21)->Ok_0;
            assert(Seq::<GroupModel>::empty() + pr.0 =~= pr.0);
        }
    }
    while i < 21
        invariant
            i <= 21,
            gpos <= payload@.len(),
            n == payload@.len(),
            groups@.len() == i,
            payload@.len() >= 28,
            ({
                let ub = spec_u32_from_le_bytes(payload@.subrange(16, 20)) as int;
                &&& p == 20 + ub + 4
                &&& 20 + ub + 4 + 4 <= payload@.len()
                &&& spec_u32_from_le_bytes(payload@.subrange(p as int, p + 4)) == 21
            }),
            match spec_parse_groups(payload@, gpos as int, 21 - i) {
                Ok(pr) => spec_parse_groups(payload@, p + 4, 21) == Ok::<_, Error>(
                    (group_views(groups@) + pr.0, pr.1),
                ),
                Err(e) => spec_parse_groups(payload@, p + 4, 21) == Err::<
                    (Seq<GroupModel>, int),
                    _,
                >(e),
            },
        decreases 21 - i,
    {
        if n - gpos < 8 {
            return Err(Error::UnexpectedEof);
        }
        let code = read_u32_le(payload, gpos);
        let count = read_u32_le(payload, gpos + 4) as usize;
        if code >= 21 {
            return Err(Error::InvalidStructure);
        }
        match parse_entries(payload, gpos + 8, count) {
            Err(e) => {
                return Err(e);
            },
            Ok((entries, p2)) => {
                let group = CutsceneStringGroup { lang_code: code, strings_data: entries };
                let ghost prev = group_views(groups@);
                groups.push(group);
                proof {
                    assert(group_views(groups@) =~= prev + seq![group@]);
                    if spec_parse_groups(payload@, p2 as int, 21 - (i + 1)) is Ok {
                        let pr = spec_parse_groups(payload@, p2 as int, 21 - (i + 1))->Ok_0;
                        assert(prev + (seq![group@] + pr.0) =~= (prev + seq![group@]) + pr.0);
                    }
                }
                gpos = p2;
                i = i + 1;
            },
        }
    }
    proof {
        let pr = spec_parse_groups(payload@, gpos as int, 0)->Ok_0;
        assert(group_views(groups@) + pr.0 =~= group_views(groups@));
    }
    if !groups_distinct(&groups) {
        return Err(Error::InvalidStructure);
    }
    if n - gpos < 5 {
        return Err(Error::UnexpectedEof);
    }
    if gpos + 5 != n {
        return Err(Error::InvalidStructure);
    }
    let unk = take_bytes(payload, gpos, 5);
    let m = Cutscene { uuid, useless_block: block, groups, unk };
    proof {
        assert(m@.uuid =~= payload@.subrange(0, 16));
    }
    Ok(m)
}

/// Interprets one payload by its magic.
pub fn parse_variant(magic: u64, payload: &Vec<u8>) -> (r: Result<ChunkVariants, Error>)
    ensures
        match r {
            Ok(v) => spec_parse_variant(magic, payload@) == Ok::<_, Error>(v@),
            Err(e) => spec_parse_variant(magic, payload@) == Err::<VariantModel, _>(e),
        },
{
    if magic == LOCALIZED_MAGIC {
        match parse_localized(payload) {
            Ok(m) => Ok(ChunkVariants::Localized(m)),
            Err(e) => Err(e),
        }
    } else if magic == CUTSCENE_MAGIC {
        match parse_cutscene(payload) {
            Ok(m) => Ok(ChunkVariants::Cutscene(m)),
            Err(e) => Err(e),
        }
    } else {
        let data = take_bytes(payload, 0, payload.len());
        proof {
            assert(data@ =~= payload@);
        }
        Ok(ChunkVariants::Others { data })
    }
}

// ----------------------------------------------------- executable encode

/// Unfolds one step of `spec_narrow_seq_bytes`.
proof fn lemma_narrow_seq_step(ss: Seq<Seq<u8>>, i: int)
    requires
        0 <= i <= ss.len(),
    ensures
        i < ss.len() ==> spec_narrow_seq_bytes(ss.skip(i)) == spec_encode_narrow(ss[i])
            + spec_narrow_seq_bytes(ss.skip(i + 1)),
        i == ss.len() ==> spec_narrow_seq_bytes(ss.skip(i)) == Seq::<u8>::empty(),
{
    let t = ss.skip(i);
    if i < ss.len() {
        assert(t[0] == ss[i]);
        assert(t.skip(1) =~= ss.skip(i + 1));
    }
}

/// Unfolds one step of `spec_entries_bytes`.
proof fn lemma_entries_bytes_step(es: Seq<EntryModel>, i: int)
    requires
        0 <= i <= es.len(),
    ensures
        i < es.len() ==> spec_entries_bytes(es.skip(i)) == spec_entry_bytes(es[i])
            + spec_entries_bytes(es.skip(i + 1)),
        i == es.len() ==> spec_entries_bytes(es.skip(i)) == Seq::<u8>::empty(),
{
    let t = es.skip(i);
    if i < es.len() {
        assert(t[0] == es[i]);
        assert(t.skip(1) =~= es.skip(i + 1));
    }
}

/// Unfolds one step of `spec_groups_bytes`.
proof fn lemma_groups_bytes_step(gs: Seq<GroupModel>, i: int)
    requires
        0 <= i <= gs.len(),
    ensures
        i < gs.len() ==> spec_groups_bytes(gs.skip(i)) == spec_group_bytes(gs[i])
            + spec_groups_bytes(gs.skip(i + 1)),
        i == gs.len() ==> spec_groups_bytes(gs.skip(i)) == Seq::<u8>::empty(),
{
    let t = gs.skip(i);
    if i < gs.len() {
        assert(t[0] == gs[i]);
        assert(t.skip(1) =~= gs.skip(i + 1));
    }
}

/// Writes a `Localized` payload.
fn write_localized(m: &Localized, out: &mut Vec<u8>)
    requires
        wf_localized(m@),
    ensures
        final(out)@ == old(out)@ + spec_encode_localized(m@),
{
    copy_bytes(out, &m.uuid, 0, m.uuid.len());
    proof {
        assert(m.uuid@.subrange(0, m.uuid@.len() as int) =~= m.uuid@);
        assert(m@.strings.skip(0) =~= m@.strings);
    }
    let mut i: usize = 0;
    while i < 21
        invariant
            i <= 21,
            wf_localized(m@),
            old(out)@ + spec_encode_localized(m@) == out@ + spec_narrow_seq_bytes(
                m@.strings.skip(i as int),
            ),
        decreases 21 - i,
    {
        proof {
            lemma_narrow_seq_step(m@.strings, i as int);
        }
        let s = m.strings.get_at(i);
        proof {
            assert(s@ == m@.strings[i as int]);
        }
        s.write(out);
        i = i + 1;
    }
    proof {
        lemma_narrow_seq_step(m@.strings, 21);
        assert(final(out)@ =~= old(out)@ + spec_encode_localized(m@));
    }
}

/// Writes the timed-line entries of one group.
fn write_entries(es: &Vec<CutsceneStringData>, out: &mut Vec<u8>)
    ensures
        final(out)@ == old(out)@ + spec_entries_bytes(entry_views(es@)),
{
    let ghost evs = entry_views(es@);
    proof {
        assert(evs.skip(0) =~= evs);
    }
    let mut i: usize = 0;
    while i < es.len()
        invariant
            i <= es@.len(),
            evs == entry_views(es@),
            old(out)@ + spec_entries_bytes(evs) == out@ + spec_entries_bytes(
                evs.skip(i as int),
            ),
        decreases es@.len() - i,
    {
        proof {
            lemma_entries_bytes_step(evs, i as int);
            assert(evs[i as int] == es@[i as int]@);
        }
        let e = &es[i];
        e.string.write(out);
        write_u64_le(out, e.timing);
        i = i + 1;
    }
    proof {
        lemma_entries_bytes_step(evs, evs.len() as int);
        assert(final(out)@ =~= old(out)@ + spec_entries_bytes(evs));
    }
}

/// Writes a `Cutscene` payload.
fn write_cutscene(m: &Cutscene, out: &mut Vec<u8>)
    requires
        wf_cutscene(m@),
    ensures
        final(out)@ == old(out)@ + spec_encode_cutscene(m@),
{
    copy_bytes(out, &m.uuid, 0, m.uuid.len());
    write_u32_le(out, (m.useless_block.len() - 4) as u32);
    copy_bytes(out, &m.useless_block, 0, m.useless_block.len());
    write_u32_le(out, 21);
    proof {
        assert(m.uuid@.subrange(0, m.uuid@.len() as int) =~= m.uuid@);
        assert(m.useless_block@.subrange(0, m.useless_block@.len() as int)
            =~= m.useless_block@);
        assert(m@.groups.skip(0) =~= m@.groups);
    }
    let ghost mid = out@;
    let mut i: usize = 0;
    while i < m.groups.len()
        invariant
            i <= m.groups@.len(),
            wf_cutscene(m@),
            mid + spec_groups_bytes(m@.groups) == out@ + spec_groups_bytes(
                m@.groups.skip(i as int),
            ),
        decreases m.groups@.len() - i,
    {
        proof {
            lemma_groups_bytes_step(m@.groups, i as int);
            assert(m@.groups[i as int] == m.groups@[i as int]@);
            assert(wf_group(m@.groups[i as int]));
        }
        let g = &m.groups[i];
        write_u32_le(out, g.lang_code);
        write_u32_le(out, g.strings_data.len() as u32);
        write_entries(&g.strings_data, out);
        i = i + 1;
    }
    proof {
        lemma_groups_bytes_step(m@.groups, m@.groups.len() as int);
    }
    copy_bytes(out, &m.unk, 0, m.unk.len());
    proof {
        assert(m.unk@.subrange(0, m.unk@.len() as int) =~= m.unk@);
        assert(final(out)@ =~= old(out)@ + spec_encode_cutscene(m@));
    }
}

/// Serializes one payload.
pub fn encode_variant(v: &ChunkVariants) -> (r: Vec<u8>)
    requires
        wf_variant(v@),
    ensures
        r@ == spec_encode_variant(v@),
{
    let mut out: Vec<u8> = Vec::new();
    match v {
        ChunkVariants::Localized(m) => {
            write_localized(m, &mut out);
        },
        ChunkVariants::Cutscene(m) => {
            write_cutscene(m, &mut out);
        },
        ChunkVariants::Others { data } => {
            copy_bytes(&mut out, data, 0, data.len());
            proof {
                assert(data@.subrange(0, data@.len() as int) =~= data@);
            }
        },
    }
    proof {
        assert(out@ =~= spec_encode_variant(v@));
    }
    out
}

impl Localized {
    /// The serialized payload size of this resource.
    pub fn rt_size(&self) -> (r: u32)
        requires
            wf_localized(self@),
            spec_encode_localized(self@).len() <= 0xffff_ffff,
        ensures
            r == spec_encode_localized(self@).len(),
    {
        let mut out: Vec<u8> = Vec::new();
        write_localized(self, &mut out);
        out.len() as u32
    }
}

impl Cutscene {
    /// The serialized payload size of this resource.
    pub fn rt_size(&self) -> (r: u32)
        requires
            wf_cutscene(self@),
            spec_encode_cutscene(self@).len() <= 0xffff_ffff,
        ensures
            r == spec_encode_cutscene(self@).len(),
    {
        let mut out: Vec<u8> = Vec::new();
        write_cutscene(self, &mut out);
        out.len() as u32
    }
}

impl RuntimeSize for ChunkVariants {
    open spec fn size_wf(&self) -> bool {
        wf_variant(self@) && spec_encode_variant(self@).len() <= 0xffff_ffff
    }

    open spec fn spec_size(&self) -> int {
        spec_encode_variant(self@).len() as int
    }

    fn rt_size(&self) -> (r: u32) {
        let bytes = encode_variant(self);
        bytes.len() as u32
    }
}

} // verus!
