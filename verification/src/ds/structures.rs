//! Death Stranding container structures: the payload variant behind the
//! localized chunk magic, its wire format, and the proof that decoding
//! followed by encoding is the identity on the bytes.
//!
//! A `Localized` payload holds a uuid and one group per language, each a
//! narrow text, a narrow note and a mode byte.  Any other magic is kept
//! verbatim as `Others`.

use crate::chunks::{record_views, records_wf, spec_encode_records, spec_parse_records, RuntimeSize};
use crate::ds::{LangMap, Language};
use crate::error::Error;
use crate::types::u8string::{
    lemma_narrow_roundtrip, read_narrow_string, spec_encode_narrow, spec_parse_narrow, U8String,
};
use crate::wire::{copy_bytes, take_bytes};
use vstd::prelude::*;

verus! {

/// The chunk magic of a `Localized` payload.
pub const LOCALIZED_MAGIC: u64 = 0x31be502435317445;

// ---------------------------------------------------------------- models

/// The mathematical content of one per-language group.
pub ghost struct LocalGroupModel {
    pub text: Seq<u8>,
    pub note: Seq<u8>,
    pub mode: u8,
}

/// The mathematical content of a `Localized` payload.
pub ghost struct LocalizedModel {
    pub uuid: Seq<u8>,
    pub groups: Seq<LocalGroupModel>,
}

/// The mathematical content of a chunk payload.
pub ghost enum VariantModel {
    Localized(LocalizedModel),
    Others(Seq<u8>),
}

/// The mathematical content of a chunk.
pub ghost struct ChunkModel {
    pub magic: u64,
    pub variant: VariantModel,
}

// ------------------------------------------------------- well-formedness

pub open spec fn wf_group(g: LocalGroupModel) -> bool {
    g.text.len() <= 0xffff && g.note.len() <= 0xffff
}

pub open spec fn wf_localized(m: LocalizedModel) -> bool {
    &&& m.uuid.len() == 16
    &&& m.groups.len() == 25
    &&& forall|i: int| 0 <= i < m.groups.len() ==> wf_group(#[trigger] m.groups[i])
}

pub open spec fn wf_variant(v: VariantModel) -> bool {
    match v {
        VariantModel::Localized(m) => wf_localized(m),
        VariantModel::Others(d) => true,
    }
}

pub open spec fn wf_chunk(c: ChunkModel) -> bool {
    &&& wf_variant(c.variant)
    &&& spec_encode_variant(c.variant).len() <= 0xffff_ffff
}

pub open spec fn wf_chunks(cs: Seq<ChunkModel>) -> bool {
    forall|i: int| 0 <= i < cs.len() ==> wf_chunk(#[trigger] cs[i])
}

// --------------------------------------------------------------- encode

pub open spec fn spec_group_bytes(g: LocalGroupModel) -> Seq<u8> {
    spec_encode_narrow(g.text) + spec_encode_narrow(g.note) + seq![g.mode]
}

pub open spec fn spec_groups_bytes(gs: Seq<LocalGroupModel>) -> Seq<u8>
    decreases gs.len(),
{
    if gs.len() == 0 {
        Seq::empty()
    } else {
        spec_group_bytes(gs[0]) + spec_groups_bytes(gs.skip(1))
    }
}

pub open spec fn spec_encode_localized(m: LocalizedModel) -> Seq<u8> {
    m.uuid + spec_groups_bytes(m.groups)
}

pub open spec fn spec_encode_variant(v: VariantModel) -> Seq<u8> {
    match v {
        VariantModel::Localized(m) => spec_encode_localized(m),
        VariantModel::Others(d) => d,
    }
}

/// The record stream that a chunk list serializes to.
pub open spec fn chunk_records(cs: Seq<ChunkModel>) -> Seq<(u64, Seq<u8>)> {
    cs.map_values(|c: ChunkModel| (c.magic, spec_encode_variant(c.variant)))
}

/// The bytes of a whole container.
pub open spec fn spec_encode_chunks(cs: Seq<ChunkModel>) -> Seq<u8> {
    spec_encode_records(chunk_records(cs))
}

// ---------------------------------------------------------------- parse

/// Reads `n` consecutive groups starting at `pos`.
pub open spec fn spec_parse_groups(d: Seq<u8>, pos: int, n: int) -> Result<
    (Seq<LocalGroupModel>, int),
    Error,
>
    decreases n,
{
    if n <= 0 {
        Ok((Seq::empty(), pos))
    } else {
        match spec_parse_narrow(d, pos) {
            Err(e) => Err(e),
            Ok((text, p2)) => match spec_parse_narrow(d, p2) {
                Err(e) => Err(e),
                Ok((note, p3)) => if p3 + 1 > d.len() {
                    Err(Error::UnexpectedEof)
                } else {
                    let mode = d[p3];
                    match spec_parse_groups(d, p3 + 1, n - 1) {
                        Err(e) => Err(e),
                        Ok((rest, end)) => Ok(
                            (seq![LocalGroupModel { text, note, mode }] + rest, end),
                        ),
                    }
                },
            },
        }
    }
}

/// Reads a `Localized` payload; it must be consumed exactly.
pub open spec fn spec_parse_localized(payload: Seq<u8>) -> Result<LocalizedModel, Error> {
    if payload.len() < 16 {
        Err(Error::UnexpectedEof)
    } else {
        match spec_parse_groups(payload, 16, 25) {
            Err(e) => Err(e),
            Ok((gs, end)) => if end != payload.len() {
                Err(Error::InvalidStructure)
            } else {
                Ok(LocalizedModel { uuid: payload.subrange(0, 16), groups: gs })
            },
        }
    }
}

/// Interprets one payload by its magic.
pub open spec fn spec_parse_variant(magic: u64, payload: Seq<u8>) -> Result<VariantModel, Error> {
    if magic == LOCALIZED_MAGIC {
        match spec_parse_localized(payload) {
            Err(e) => Err(e),
            Ok(m) => Ok(VariantModel::Localized(m)),
        }
    } else {
        Ok(VariantModel::Others(payload))
    }
}

/// Interprets every record of a stream.
pub open spec fn spec_chunks_from_records(rs: Seq<(u64, Seq<u8>)>) -> Result<Seq<ChunkModel>, Error>
    decreases rs.len(),
{
    if rs.len() == 0 {
        Ok(Seq::empty())
    } else {
        match spec_parse_variant(rs[0].0, rs[0].1) {
            Err(e) => Err(e),
            Ok(v) => match spec_chunks_from_records(rs.skip(1)) {
                Err(e) => Err(e),
                Ok(rest) => Ok(seq![ChunkModel { magic: rs[0].0, variant: v }] + rest),
            },
        }
    }
}

/// Decodes a whole container into chunks.
pub open spec fn spec_parse_chunks(d: Seq<u8>) -> Result<Seq<ChunkModel>, Error> {
    match spec_parse_records(d, 0) {
        Err(e) => Err(e),
        Ok(rs) => spec_chunks_from_records(rs),
    }
}

// ----------------------------------------------------- round-trip proof

/// Parsed group lists re-encode to the bytes they came from.
proof fn lemma_groups_roundtrip(d: Seq<u8>, pos: int, n: int)
    requires
        0 <= pos <= d.len(),
        0 <= n,
        spec_parse_groups(d, pos, n) is Ok,
    ensures
        ({
            let (gs, end) = spec_parse_groups(d, pos, n)->Ok_0;
            &&& gs.len() == n
            &&& pos <= end <= d.len()
            &&& forall|i: int| 0 <= i < n ==> wf_group(#[trigger] gs[i])
            &&& spec_groups_bytes(gs) == d.subrange(pos, end)
        }),
    decreases n,
{
    let (gs, end) = spec_parse_groups(d, pos, n)->Ok_0;
    if n == 0 {
        assert(spec_groups_bytes(gs) =~= d.subrange(pos, pos));
    } else {
        let (text, p2) = spec_parse_narrow(d, pos)->Ok_0;
        lemma_narrow_roundtrip(d, pos);
        let (note, p3) = spec_parse_narrow(d, p2)->Ok_0;
        lemma_narrow_roundtrip(d, p2);
        let mode = d[p3];
        lemma_groups_roundtrip(d, p3 + 1, n - 1);
        let (rest, end2) = spec_parse_groups(d, p3 + 1, n - 1)->Ok_0;
        let g0 = LocalGroupModel { text, note, mode };
        assert(gs == seq![g0] + rest);
        assert(gs[0] == g0);
        assert(gs.skip(1) =~= rest);
        assert(seq![mode] =~= d.subrange(p3, p3 + 1));
        assert(spec_group_bytes(g0) =~= d.subrange(pos, p3 + 1));
        assert(spec_groups_bytes(gs) =~= d.subrange(pos, end));
    }
}

/// A parsed `Localized` payload re-encodes to exactly that payload.
pub proof fn lemma_localized_roundtrip(payload: Seq<u8>)
    requires
        spec_parse_localized(payload) is Ok,
    ensures
        wf_localized(spec_parse_localized(payload)->Ok_0),
        spec_encode_localized(spec_parse_localized(payload)->Ok_0) == payload,
{
    let m = spec_parse_localized(payload)->Ok_0;
    lemma_groups_roundtrip(payload, 16, 25);
    assert(spec_encode_localized(m) =~= payload);
}

/// A parsed payload re-encodes to exactly that payload.
pub proof fn lemma_variant_roundtrip(magic: u64, payload: Seq<u8>)
    requires
        spec_parse_variant(magic, payload) is Ok,
    ensures
        wf_variant(spec_parse_variant(magic, payload)->Ok_0),
        spec_encode_variant(spec_parse_variant(magic, payload)->Ok_0) == payload,
{
    if magic == LOCALIZED_MAGIC {
        lemma_localized_roundtrip(payload);
    }
}

/// Chunks parsed from records re-encode to the same record stream.
proof fn lemma_chunks_from_records_roundtrip(rs: Seq<(u64, Seq<u8>)>)
    requires
        records_wf(rs),
        spec_chunks_from_records(rs) is Ok,
    ensures
        ({
            let cs = spec_chunks_from_records(rs)->Ok_0;
            &&& wf_chunks(cs)
            &&& chunk_records(cs) == rs
        }),
    decreases rs.len(),
{
    let cs = spec_chunks_from_records(rs)->Ok_0;
    if rs.len() == 0 {
        assert(chunk_records(cs) =~= rs);
    } else {
        lemma_variant_roundtrip(rs[0].0, rs[0].1);
        let v = spec_parse_variant(rs[0].0, rs[0].1)->Ok_0;
        assert(records_wf(rs.skip(1))) by {
            assert(forall|i: int|
                0 <= i < rs.skip(1).len() ==> #[trigger] rs.skip(1)[i] == rs[i + 1]);
        }
        lemma_chunks_from_records_roundtrip(rs.skip(1));
        let rest = spec_chunks_from_records(rs.skip(1))->Ok_0;
        let c0 = ChunkModel { magic: rs[0].0, variant: v };
        assert(cs == seq![c0] + rest);
        assert(cs[0] == c0);
        assert(cs.skip(1) =~= rest);
        assert forall|i: int| 0 <= i < cs.len() implies chunk_records(cs)[i] == rs[i] by {
            if i > 0 {
                assert(cs[i] == rest[i - 1]);
                assert(chunk_records(rest)[i - 1] == rs.skip(1)[i - 1]);
                assert(rs.skip(1)[i - 1] == rs[i]);
            }
        }
        assert(chunk_records(cs) =~= rs);
    }
}

/// Decoding a container and encoding it again yields byte-identical
/// output: the pure round-trip over every input that decodes at all.
pub proof fn lemma_chunks_roundtrip(d: Seq<u8>)
    requires
        spec_parse_chunks(d) is Ok,
    ensures
        wf_chunks(spec_parse_chunks(d)->Ok_0),
        spec_encode_chunks(spec_parse_chunks(d)->Ok_0) == d,
{
    let rs = spec_parse_records(d, 0)->Ok_0;
    crate::chunks::lemma_records_roundtrip(d, 0);
    lemma_chunks_from_records_roundtrip(rs);
    assert(d.subrange(0, d.len() as int) =~= d);
}

// ----------------------------------------------------- executable types

/// One chunk of the container.
pub struct Chunk {
    pub magic: u64,
    pub variant: ChunkVariants,
}

/// The payload variants of this title.
pub enum ChunkVariants {
    Localized(Localized),
    /// A chunk whose magic is unrecognized; its bytes pass through
    /// unmodified.
    Others { data: Vec<u8> },
}

/// A uuid with one string group per language.
pub struct Localized {
    pub uuid: Vec<u8>,
    pub string_groups: LangMap<LocalGroup>,
}

/// One per-language group: the localizable text, a translator note and a
/// mode byte.
pub struct LocalGroup {
    pub text: U8String,
    pub note: U8String,
    pub mode: u8,
}

impl View for LocalGroup {
    type V = LocalGroupModel;

    open spec fn view(&self) -> LocalGroupModel {
        LocalGroupModel { text: self.text@, note: self.note@, mode: self.mode }
    }
}

/// The models of a list of groups.
pub open spec fn group_views(gs: Seq<LocalGroup>) -> Seq<LocalGroupModel> {
    gs.map_values(|g: LocalGroup| g@)
}

impl View for Localized {
    type V = LocalizedModel;

    open spec fn view(&self) -> LocalizedModel {
        LocalizedModel { uuid: self.uuid@, groups: group_views(self.string_groups@) }
    }
}

impl View for ChunkVariants {
    type V = VariantModel;

    open spec fn view(&self) -> VariantModel {
        match self {
            ChunkVariants::Localized(m) => VariantModel::Localized(m@),
            ChunkVariants::Others { data } => VariantModel::Others(data@),
        }
    }
}

impl View for Chunk {
    type V = ChunkModel;

    open spec fn view(&self) -> ChunkModel {
        ChunkModel { magic: self.magic, variant: self.variant@ }
    }
}

impl ChunkVariants {
    /// The kind of the payload, by name.
    pub fn name(&self) -> (r: &'static str)
        ensures
            self is Localized ==> r@ == "Localized"@,
            self is Others ==> r@ == "Others"@,
    {
        match self {
            ChunkVariants::Localized(_) => "Localized",
            ChunkVariants::Others { .. } => "Others",
        }
    }
}

// ------------------------------------------------------ executable parse

/// Reads a `Localized` payload.
pub fn parse_localized(payload: &Vec<u8>) -> (r: Result<Localized, Error>)
    ensures
        match r {
            Ok(m) => spec_parse_localized(payload@) == Ok::<_, Error>(m@),
            Err(e) => spec_parse_localized(payload@) == Err::<LocalizedModel, _>(e),
        },
{
    let n = payload.len();
    if n < 16 {
        return Err(Error::UnexpectedEof);
    }
    let uuid = take_bytes(payload, 0, 16);
    let mut groups: Vec<LocalGroup> = Vec::new();
    let mut pos: usize = 16;
    let mut i: usize = 0;
    proof {
        assert(group_views(groups@) =~= Seq::<LocalGroupModel>::empty());
        if spec_parse_groups(payload@, 16, 25) is Ok {
            let pr = spec_parse_groups(payload@, 16, 25)->Ok_0;
            assert(Seq::<LocalGroupModel>::empty() + pr.0 =~= pr.0);
        }
    }
    while i < 25
        invariant
            i <= 25,
            pos <= payload@.len(),
            n == payload@.len(),
            groups@.len() == i,
            match spec_parse_groups(payload@, pos as int, 25 - i) {
                Ok(pr) => spec_parse_groups(payload@, 16, 25) == Ok::<_, Error>(
                    (group_views(groups@) + pr.0, pr.1),
                ),
                Err(e) => spec_parse_groups(payload@, 16, 25) == Err::<
                    (Seq<LocalGroupModel>, int),
                    _,
                >(e),
            },
        decreases 25 - i,
    {
        let (text, p2) = match read_narrow_string(payload, pos) {
            Ok(r) => r,
            Err(e) => {
                return Err(e);
            },
        };
        let (note, p3) = match read_narrow_string(payload, p2) {
            Ok(r) => r,
            Err(e) => {
                return Err(e);
            },
        };
        if p3 >= n {
            return Err(Error::UnexpectedEof);
        }
        let mode = payload[p3];
        let g = LocalGroup { text, note, mode };
        let ghost prev = group_views(groups@);
        groups.push(g);
        proof {
            assert(group_views(groups@) =~= prev + seq![g@]);
            if spec_parse_groups(payload@, p3 + 1, 25 - (i + 1)) is Ok {
                let pr = spec_parse_groups(payload@, p3 + 1, 25 - (i + 1))->Ok_0;
                assert(prev + (seq![g@] + pr.0) =~= (prev + seq![g@]) + pr.0);
            }
        }
        pos = p3 + 1;
        i = i + 1;
    }
    proof {
        let pr = spec_parse_groups(payload@, pos as int, 0)->Ok_0;
        assert(group_views(groups@) + pr.0 =~= group_views(groups@));
    }
    if pos != n {
        return Err(Error::InvalidStructure);
    }
    match LangMap::<LocalGroup>::from_vec(groups) {
        Some(map) => {
            let m = Localized { uuid, string_groups: map };
            proof {
                assert(m@.uuid =~= payload@.subrange(0, 16));
            }
            Ok(m)
        },
        None => {
            proof {
                assert(false);
            }
            Err(Error::InvalidStructure)
        },
    }
}

/// Interprets one payload by its magic.
pub fn parse_variant(magic: u64, payload: &Vec<u8>) -> (r: Result<ChunkVariants, Error>)
    ensures
        match r {
            Ok(v) => spec_parse_variant(magic, payload@) == Ok::<_, Error>(v@),
            Err(e) => spec_parse_variant(magic, payload@) == Err::<VariantModel, _>(e),
        },
{
    if magic == LOCALIZED_MAGIC {
        match parse_localized(payload) {
            Ok(m) => Ok(ChunkVariants::Localized(m)),
            Err(e) => Err(e),
        }
    } else {
        let data = take_bytes(payload, 0, payload.len());
        proof {
            assert(data@ =~= payload@);
        }
        Ok(ChunkVariants::Others { data })
    }
}

// ----------------------------------------------------- executable encode

/// Unfolds one step of `spec_groups_bytes`.
proof fn lemma_groups_bytes_step(gs: Seq<LocalGroupModel>, i: int)
    requires
        0 <= i <= gs.len(),
    ensures
        i < gs.len() ==> spec_groups_bytes(gs.skip(i)) == spec_group_bytes(gs[i])
            + spec_groups_bytes(gs.skip(i + 1)),
        i == gs.len() ==> spec_groups_bytes(gs.skip(i)) == Seq::<u8>::empty(),
{
    let t = gs.skip(i);
    if i < gs.len() {
        assert(t[0] == gs[i]);
        assert(t.skip(1) =~= gs.skip(i + 1));
    }
}

/// Writes one group.
fn write_group(g: &LocalGroup, out: &mut Vec<u8>)
    ensures
        final(out)@ == old(out)@ + spec_group_bytes(g@),
{
    g.text.write(out);
    g.note.write(out);
    out.push(g.mode);
    proof {
        assert(final(out)@ =~= old(out)@ + spec_group_bytes(g@));
    }
}

/// Writes a `Localized` payload.
fn write_localized(m: &Localized, out: &mut Vec<u8>)
    requires
        wf_localized(m@),
    ensures
        final(out)@ == old(out)@ + spec_encode_localized(m@),
{
    copy_bytes(out, &m.uuid, 0, m.uuid.len());
    proof {
        assert(m.uuid@.subrange(0, m.uuid@.len() as int) =~= m.uuid@);
        assert(m@.groups.skip(0) =~= m@.groups);
    }
    let mut i: usize = 0;
    while i < 25
        invariant
            i <= 25,
            wf_localized(m@),
            old(out)@ + spec_encode_localized(m@) == out@ + spec_groups_bytes(
                m@.groups.skip(i as int),
            ),
        decreases 25 - i,
    {
        proof {
            lemma_groups_bytes_step(m@.groups, i as int);
        }
        let g = m.string_groups.get_at(i);
        proof {
            assert(g@ == m@.groups[i as int]);
        }
        write_group(g, out);
        i = i + 1;
    }
    proof {
        lemma_groups_bytes_step(m@.groups, 25);
        assert(final(out)@ =~= old(out)@ + spec_encode_localized(m@));
    }
}

/// Serializes one payload.
pub fn encode_variant(v: &ChunkVariants) -> (r: Vec<u8>)
    requires
        wf_variant(v@),
    ensures
        r@ == spec_encode_variant(v@),
{
    let mut out: Vec<u8> = Vec::new();
    match v {
        ChunkVariants::Localized(m) => {
            write_localized(m, &mut out);
        },
        ChunkVariants::Others { data } => {
            copy_bytes(&mut out, data, 0, data.len());
            proof {
                assert(data@.subrange(0, data@.len() as int) =~= data@);
            }
        },
    }
    proof {
        assert(out@ =~= spec_encode_variant(v@));
    }
    out
}

impl RuntimeSize for ChunkVariants {
    open spec fn size_wf(&self) -> bool {
        wf_variant(self@) && spec_encode_variant(self@).len() <= 0xffff_ffff
    }

    open spec fn spec_size(&self) -> int {
        spec_encode_variant(self@).len() as int
    }

    fn rt_size(&self) -> (r: u32) {
        let bytes = encode_variant(self);
        bytes.len() as u32
    }
}

impl Localized {
    /// The serialized payload size of this resource.
    pub fn rt_size(&self) -> (r: u32)
        requires
            wf_localized(self@),
            spec_encode_localized(self@).len() <= 0xffff_ffff,
        ensures
            r == spec_encode_localized(self@).len(),
    {
        let mut out: Vec<u8> = Vec::new();
        write_localized(self, &mut out);
        out.len() as u32
    }
}

impl LocalGroup {
    /// The serialized size of the group.
    pub fn rt_size(&self) -> (r: u32)
        requires
            spec_group_bytes(self@).len() <= 0xffff_ffff,
        ensures
            r == spec_group_bytes(self@).len(),
    {
        let mut out: Vec<u8> = Vec::new();
        write_group(self, &mut out);
        out.len() as u32
    }
}

} // verus!
