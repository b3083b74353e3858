//! Loading, extracting, updating and re-encoding this title's
//! localization resources.

use crate::chunks::{encode_records, parse_records, record_views, records_wf, RawRecord};
use crate::ds::error::DSError;
use crate::ds::structures::{
    chunk_records, encode_variant, group_views, parse_variant, spec_chunks_from_records,
    spec_encode_chunks, spec_encode_localized, spec_parse_chunks, wf_chunk, wf_chunks, wf_group,
    wf_localized, Chunk, ChunkModel, ChunkVariants, LocalGroup, LocalGroupModel, Localized,
    LocalizedModel, VariantModel,
};
use crate::ds::LangMap;
use crate::error::{Error, ResourceKind};
use crate::types::u8string::U8String;
use crate::wire::{take_bytes, vec_u8_eq};
use vstd::prelude::*;

verus! {

// ----------------------------------------------------------- local views

/// The byte views of a list of byte vectors.
pub open spec fn bytes_views(vs: Seq<Vec<u8>>) -> Seq<Seq<u8>> {
    vs.map_values(|v: Vec<u8>| v@)
}

/// An extracted resource, as a mathematical value: one text per language.
pub ghost struct LocalResourceModel {
    pub index: int,
    pub strings: Seq<Seq<u8>>,
}

/// An extraction view of one resource: its source chunk index and a copy
/// of the localizable text of each language.
pub struct LocalResource {
    pub index: usize,
    pub strings: LangMap<Vec<u8>>,
}

impl View for LocalResource {
    type V = LocalResourceModel;

    open spec fn view(&self) -> LocalResourceModel {
        LocalResourceModel { index: self.index as int, strings: bytes_views(self.strings@) }
    }
}

/// The models of a list of extracted resources.
pub open spec fn locals_views(ls: Seq<LocalResource>) -> Seq<LocalResourceModel> {
    ls.map_values(|l: LocalResource| l@)
}

// ------------------------------------------------- extraction, in spec

/// The localizable texts of a `Localized` payload, one per language.
pub open spec fn localized_texts(m: LocalizedModel) -> Seq<Seq<u8>> {
    m.groups.map_values(|g: LocalGroupModel| g.text)
}

/// The resource extracted from one chunk, if it holds one.
pub open spec fn local_of_chunk(c: ChunkModel, i: int) -> Option<LocalResourceModel> {
    match c.variant {
        VariantModel::Localized(m) => Some(
            LocalResourceModel { index: i, strings: localized_texts(m) },
        ),
        VariantModel::Others(_) => None,
    }
}

/// Every resource extracted from the chunks at `i` and beyond.
pub open spec fn spec_get_locals(cs: Seq<ChunkModel>, i: int) -> Seq<LocalResourceModel>
    decreases cs.len() - i,
    when 0 <= i <= cs.len()
{
    if i >= cs.len() {
        Seq::empty()
    } else {
        match local_of_chunk(cs[i], i) {
            Some(l) => seq![l] + spec_get_locals(cs, i + 1),
            None => spec_get_locals(cs, i + 1),
        }
    }
}

/// True when some chunk holds a localization resource.
pub open spec fn spec_has_local(cs: Seq<ChunkModel>) -> bool {
    exists|i: int| 0 <= i < cs.len() && !((#[trigger] cs[i]).variant is Others)
}

/// Decoding a container: the chunks, or `NoLocalResource` when none of
/// them holds text.
pub open spec fn spec_new(d: Seq<u8>) -> Result<Seq<ChunkModel>, Error> {
    match spec_parse_chunks(d) {
        Err(e) => Err(e),
        Ok(cs) => if !spec_has_local(cs) {
            Err(Error::NoLocalResource)
        } else {
            Ok(cs)
        },
    }
}

// ------------------------------------------------------ update, in spec

/// The first replacement string too long for the narrow prefix, if any.
pub open spec fn find_long_narrow(texts: Seq<Seq<u8>>, i: int) -> Option<int>
    decreases texts.len() - i,
    when 0 <= i <= texts.len()
{
    if i >= texts.len() {
        None
    } else if texts[i].len() > 0xffff {
        Some(i)
    } else {
        find_long_narrow(texts, i + 1)
    }
}

/// Replacing every language's text of a `Localized` payload, keeping
/// notes and modes; a text beyond the 16-bit prefix is rejected.
pub open spec fn spec_update_localized(m: LocalizedModel, texts: Seq<Seq<u8>>) -> Result<
    LocalizedModel,
    DSError,
> {
    match find_long_narrow(texts, 0) {
        Some(i) => Err(DSError::StringTooLong { got: texts[i].len() as usize, max: 0xffff }),
        None => Ok(
            LocalizedModel {
                uuid: m.uuid,
                groups: Seq::new(
                    m.groups.len(),
                    |l: int|
                        LocalGroupModel {
                            text: texts[l],
                            note: m.groups[l].note,
                            mode: m.groups[l].mode,
                        },
                ),
            },
        ),
    }
}

/// Applies one resource update to the chunk it names.
pub open spec fn spec_apply_local(cs: Seq<ChunkModel>, l: LocalResourceModel) -> Result<
    Seq<ChunkModel>,
    DSError,
> {
    if l.index < 0 || l.index >= cs.len() {
        Err(DSError::InvalidLocalResourceIdx { max: cs.len() as usize, got: l.index as usize })
    } else {
        let c = cs[l.index];
        match c.variant {
            VariantModel::Localized(m) => match spec_update_localized(m, l.strings) {
                Err(e) => Err(e),
                Ok(m2) => Ok(
                    cs.update(
                        l.index,
                        ChunkModel { magic: c.magic, variant: VariantModel::Localized(m2) },
                    ),
                ),
            },
            VariantModel::Others(_) => Err(
                DSError::ResourceNotMatchAtIdx {
                    input: ResourceKind::Localized,
                    original: ResourceKind::Others,
                },
            ),
        }
    }
}

/// Applies a list of resource updates in order; the first failure stops
/// the batch, leaving earlier updates applied.
pub open spec fn spec_update_locals(cs: Seq<ChunkModel>, ls: Seq<LocalResourceModel>) -> Result<
    Seq<ChunkModel>,
    DSError,
>
    decreases ls.len(),
{
    if ls.len() == 0 {
        Ok(cs)
    } else {
        match spec_apply_local(cs, ls[0]) {
            Err(e) => Err(e),
            Ok(cs2) => spec_update_locals(cs2, ls.skip(1)),
        }
    }
}

// ----------------------------------------------------------- container

/// The models of a list of chunks.
pub open spec fn chunks_views(cs: Seq<Chunk>) -> Seq<ChunkModel> {
    cs.map_values(|c: Chunk| c@)
}

/// A loaded container of this title.
pub struct DSLocal {
    pub chunks: Vec<Chunk>,
}

impl View for DSLocal {
    type V = Seq<ChunkModel>;

    open spec fn view(&self) -> Seq<ChunkModel> {
        chunks_views(self.chunks@)
    }
}

/// Unfolds one step of `spec_chunks_from_records` at `i`.
proof fn lemma_chunks_from_records_step(rs: Seq<(u64, Seq<u8>)>, i: int)
    requires
        0 <= i <= rs.len(),
    ensures
        i == rs.len() ==> spec_chunks_from_records(rs.skip(i)) == Ok::<_, Error>(
            Seq::<ChunkModel>::empty(),
        ),
        i < rs.len() ==> rs.skip(i)[0] == rs[i] && rs.skip(i).skip(1) == rs.skip(i + 1),
{
    let t = rs.skip(i);
    if i < rs.len() {
        assert(t[0] == rs[i]);
        assert(t.skip(1) =~= rs.skip(i + 1));
    }
}

/// `find_long_narrow` skips a prefix of fitting strings.
pub(crate) proof fn lemma_find_long_narrow_prefix(texts: Seq<Seq<u8>>, i: int)
    requires
        0 <= i <= texts.len(),
        forall|j: int| 0 <= j < i ==> (#[trigger] texts[j]).len() <= 0xffff,
    ensures
        find_long_narrow(texts, 0) == find_long_narrow(texts, i),
    decreases i,
{
    if i > 0 {
        lemma_find_long_narrow_prefix(texts, i - 1);
    }
}

/// Applying one more update to a batch composes.
proof fn lemma_update_snoc(cs: Seq<ChunkModel>, ls: Seq<LocalResourceModel>, l: LocalResourceModel)
    ensures
        spec_update_locals(cs, ls.push(l)) == match spec_update_locals(cs, ls) {
            Ok(cs2) => spec_apply_local(cs2, l),
            Err(e) => Err(e),
        },
    decreases ls.len(),
{
    let lsp = ls.push(l);
    if ls.len() == 0 {
        assert(lsp[0] == l);
        assert(lsp.skip(1) =~= Seq::<LocalResourceModel>::empty());
        match spec_apply_local(cs, l) {
            Err(e) => {
                assert(spec_update_locals(cs, lsp) == Err::<Seq<ChunkModel>, DSError>(e));
            },
            Ok(cs2) => {
                assert(spec_update_locals(cs2, lsp.skip(1)) == Ok::<_, DSError>(cs2));
                assert(spec_update_locals(cs, lsp) == Ok::<_, DSError>(cs2));
            },
        }
        assert(spec_update_locals(cs, ls) == Ok::<_, DSError>(cs));
    } else {
        assert(lsp[0] == ls[0]);
        assert(lsp.skip(1) =~= ls.skip(1).push(l));
        match spec_apply_local(cs, ls[0]) {
            Err(e) => {
                assert(spec_update_locals(cs, lsp) == Err::<Seq<ChunkModel>, DSError>(e));
                assert(spec_update_locals(cs, ls) == Err::<Seq<ChunkModel>, DSError>(e));
            },
            Ok(cs2) => {
                lemma_update_snoc(cs2, ls.skip(1), l);
                assert(spec_update_locals(cs, lsp) == spec_update_locals(
                    cs2,
                    ls.skip(1).push(l),
                ));
                assert(spec_update_locals(cs, ls) == spec_update_locals(cs2, ls.skip(1)));
            },
        }
    }
}

/// A resource update's map holds one entry per language.
pub open spec fn local_wf(l: LocalResource) -> bool {
    l.strings.wf()
}

/// Replaces the texts of a `Localized` payload, keeping notes and modes.
fn apply_localized(loc: &Localized, texts: &LangMap<Vec<u8>>) -> (r: Result<ChunkVariants, DSError>)
    requires
        texts.wf(),
        wf_localized(loc@),
    ensures
        match r {
            Ok(v) => {
                &&& v is Localized
                &&& spec_update_localized(loc@, bytes_views(texts@)) matches Ok(m2) && v@
                    == VariantModel::Localized(m2)
                &&& wf_chunk(ChunkModel { magic: 0, variant: v@ })
            },
            Err(e) => spec_update_localized(loc@, bytes_views(texts@)) == Err::<
                LocalizedModel,
                _,
            >(e),
        },
{
    let ghost tv = bytes_views(texts@);
    let mut groups: Vec<LocalGroup> = Vec::new();
    let mut l: usize = 0;
    while l < 25
        invariant
            l <= 25,
            texts.wf(),
            wf_localized(loc@),
            tv == bytes_views(texts@),
            groups@.len() == l,
            forall|j: int| 0 <= j < l ==> (#[trigger] tv[j]).len() <= 0xffff,
            forall|j: int|
                0 <= j < l ==> (#[trigger] group_views(groups@)[j]) == (LocalGroupModel {
                    text: tv[j],
                    note: loc@.groups[j].note,
                    mode: loc@.groups[j].mode,
                }),
        decreases 25 - l,
    {
        let t = texts.get_at(l);
        proof {
            assert(tv[l as int] == texts@[l as int]@);
        }
        let copy = take_bytes(t, 0, t.len());
        match U8String::from_bytes(copy) {
            Some(text) => {
                let old_group = loc.string_groups.get_at(l);
                proof {
                    assert(old_group@ == loc@.groups[l as int]);
                    assert(wf_group(loc@.groups[l as int]));
                }
                let note = match U8String::from_bytes(old_group.note.to_bytes()) {
                    Some(nb) => nb,
                    None => {
                        proof {
                            assert(false);
                        }
                        return Err(DSError::StringTooLong { got: 0, max: 0 });
                    },
                };
                let g = LocalGroup { text, note, mode: old_group.mode };
                let ghost pre = groups@;
                groups.push(g);
                proof {
                    assert(wf_group(loc@.groups[l as int]));
                    assert(g@.note == loc@.groups[l as int].note);
                    assert(g@.text == tv[l as int]);
                    assert(g@.mode == loc@.groups[l as int].mode);
                    assert forall|j: int|
                        0 <= j < l + 1 implies (#[trigger] group_views(groups@)[j])
                        == (LocalGroupModel {
                        text: tv[j],
                        note: loc@.groups[j].note,
                        mode: loc@.groups[j].mode,
                    }) by {
                        assert(group_views(groups@)[j] == groups@[j]@);
                        if j < l {
                            assert(groups@[j] == pre[j]);
                            assert(group_views(pre)[j] == pre[j]@);
                        } else {
                            assert(groups@[j] == g);
                        }
                    }
                }
                l = l + 1;
            },
            None => {
                proof {
                    lemma_find_long_narrow_prefix(tv, l as int);
                }
                return Err(DSError::StringTooLong { got: t.len(), max: 0xffff });
            },
        }
    }
    proof {
        lemma_find_long_narrow_prefix(tv, 25);
    }
    let uuid = take_bytes(&loc.uuid, 0, loc.uuid.len());
    match LangMap::<LocalGroup>::from_vec(groups) {
        Some(map) => {
            let m2 = Localized { uuid, string_groups: map };
            proof {
                let expected = spec_update_localized(loc@, tv)->Ok_0;
                assert(group_views(m2.string_groups@) =~= expected.groups);
                assert(m2@.uuid =~= loc@.uuid);
                lemma_localized_size_bound(m2@);
            }
            Ok(ChunkVariants::Localized(m2))
        },
        None => {
            proof {
                assert(false);
            }
            Err(DSError::StringTooLong { got: 0, max: 0 })
        },
    }
}

/// The serialized size of a well-formed `Localized` payload always fits
/// the 32-bit size field.
proof fn lemma_groups_bytes_len(gs: Seq<LocalGroupModel>)
    requires
        forall|i: int| 0 <= i < gs.len() ==> wf_group(#[trigger] gs[i]),
    ensures
        crate::ds::structures::spec_groups_bytes(gs).len() <= gs.len() * 0x20003,
    decreases gs.len(),
{
    if gs.len() > 0 {
        assert forall|i: int|
            0 <= i < gs.skip(1).len() implies wf_group(#[trigger] gs.skip(1)[i]) by {
            assert(gs.skip(1)[i] == gs[i + 1]);
        }
        lemma_groups_bytes_len(gs.skip(1));
        vstd::bytes::lemma_auto_spec_u16_to_from_le_bytes();
        assert(crate::ds::structures::spec_group_bytes(gs[0]).len() <= 0x20003);
        assert(gs.skip(1).len() * 0x20003 == (gs.len() - 1) * 0x20003) by (nonlinear_arith)
            requires
                gs.len() >= 1 && gs.skip(1).len() == gs.len() - 1,
        ;
        assert((gs.len() - 1) * 0x20003 + 0x20003 == gs.len() * 0x20003) by (nonlinear_arith);
    }
}

/// A well-formed `Localized` payload fits its size field.
pub proof fn lemma_localized_size_bound(m: LocalizedModel)
    requires
        wf_localized(m),
    ensures
        spec_encode_localized(m).len() <= 0xffff_ffff,
{
    lemma_groups_bytes_len(m.groups);
}

impl DSLocal {
    /// The container's chunks are well formed.
    pub open spec fn wf(&self) -> bool {
        wf_chunks(self@)
    }

    /// Decodes a container from its bytes.  Fails with `NoLocalResource`
    /// when no chunk holds a localization resource.
    pub fn new(data: &Vec<u8>) -> (r: Result<DSLocal, Error>)
        ensures
            match r {
                Ok(h) => spec_new(data@) == Ok::<_, Error>(h@) && h.wf(),
                Err(e) => spec_new(data@) == Err::<Seq<ChunkModel>, _>(e),
            },
    {
        let records = match parse_records(data) {
            Ok(rs) => rs,
            Err(e) => {
                return Err(e);
            },
        };
        let ghost rsv = record_views(records@);
        let mut chunks: Vec<Chunk> = Vec::new();
        let mut i: usize = 0;
        proof {
            assert(rsv.skip(0) =~= rsv);
            if spec_chunks_from_records(rsv) is Ok {
                let rest = spec_chunks_from_records(rsv)->Ok_0;
                assert(Seq::<ChunkModel>::empty() + rest =~= rest);
            }
        }
        while i < records.len()
            invariant
                i <= records@.len(),
                rsv == record_views(records@),
                crate::chunks::spec_parse_records(data@, 0) == Ok::<_, Error>(rsv),
                chunks@.len() == i,
                match spec_chunks_from_records(rsv.skip(i as int)) {
                    Ok(rest) => spec_chunks_from_records(rsv) == Ok::<_, Error>(
                        chunks_views(chunks@) + rest,
                    ),
                    Err(e) => spec_chunks_from_records(rsv) == Err::<Seq<ChunkModel>, _>(e),
                },
            decreases records@.len() - i,
        {
            proof {
                lemma_chunks_from_records_step(rsv, i as int);
                assert(rsv[i as int] == records@[i as int]@);
            }
            let rec = &records[i];
            match parse_variant(rec.magic, &rec.payload) {
                Err(e) => {
                    return Err(e);
                },
                Ok(v) => {
                    let c = Chunk { magic: rec.magic, variant: v };
                    let ghost prev = chunks_views(chunks@);
                    chunks.push(c);
                    proof {
                        assert(chunks_views(chunks@) =~= prev + seq![c@]);
                        if spec_chunks_from_records(rsv.skip(i + 1)) is Ok {
                            let rest = spec_chunks_from_records(rsv.skip(i + 1))->Ok_0;
                            assert(prev + (seq![c@] + rest) =~= (prev + seq![c@]) + rest);
                        }
                    }
                    i = i + 1;
                },
            }
        }
        proof {
            lemma_chunks_from_records_step(rsv, i as int);
            assert(chunks_views(chunks@) + Seq::<ChunkModel>::empty() =~= chunks_views(chunks@));
        }
        let h = DSLocal { chunks };
        if !h.has_local() {
            return Err(Error::NoLocalResource);
        }
        proof {
            crate::ds::structures::lemma_chunks_roundtrip(data@);
        }
        Ok(h)
    }

    /// True when some chunk holds a localization resource.
    fn has_local(&self) -> (r: bool)
        ensures
            r == spec_has_local(self@),
    {
        let mut i: usize = 0;
        while i < self.chunks.len()
            invariant
                i <= self.chunks@.len(),
                forall|j: int|
                    0 <= j < i ==> (#[trigger] chunks_views(self.chunks@)[j]).variant is Others,
            decreases self.chunks@.len() - i,
        {
            match &self.chunks[i].variant {
                ChunkVariants::Others { .. } => {
                    proof {
                        assert(chunks_views(self.chunks@)[i as int] == self.chunks@[i as int]@);
                    }
                },
                _ => {
                    proof {
                        assert(chunks_views(self.chunks@)[i as int] == self.chunks@[i as int]@);
                        assert(!(chunks_views(self.chunks@)[i as int].variant is Others));
                    }
                    return true;
                },
            }
            i = i + 1;
        }
        false
    }

    /// Serializes the container, recomputing every size field from the
    /// payload's actual serialized length.
    pub fn write(&self) -> (r: Vec<u8>)
        requires
            self.wf(),
        ensures
            r@ == spec_encode_chunks(self@),
    {
        let mut records: Vec<RawRecord> = Vec::new();
        let mut i: usize = 0;
        while i < self.chunks.len()
            invariant
                i <= self.chunks@.len(),
                self.wf(),
                records@.len() == i,
                forall|j: int|
                    0 <= j < i ==> (#[trigger] record_views(records@)[j]) == chunk_records(
                        self@,
                    )[j],
            decreases self.chunks@.len() - i,
        {
            let c = &self.chunks[i];
            proof {
                assert(self@[i as int] == self.chunks@[i as int]@);
                assert(wf_chunk(self@[i as int]));
            }
            let payload = encode_variant(&c.variant);
            let ghost prev = record_views(records@);
            records.push(RawRecord { magic: c.magic, payload });
            proof {
                assert(record_views(records@) =~= prev + seq![
                    (c.magic, crate::ds::structures::spec_encode_variant(c.variant@)),
                ]);
            }
            i = i + 1;
        }
        proof {
            assert(record_views(records@) =~= chunk_records(self@));
            assert(records_wf(record_views(records@))) by {
                assert(forall|j: int| 0 <= j < self@.len() ==> wf_chunk(#[trigger] self@[j]));
                assert(forall|j: int|
                    0 <= j < chunk_records(self@).len() ==> #[trigger] chunk_records(self@)[j]
                        == (self@[j].magic, crate::ds::structures::spec_encode_variant(
                        self@[j].variant,
                    )));
            }
        }
        encode_records(&records)
    }

    /// True exactly when the two containers serialize to the same bytes:
    /// the pure, structural comparison behind "skip the write when
    /// nothing changed".
    pub fn content_equals(&self, other: &DSLocal) -> (r: bool)
        requires
            self.wf(),
            other.wf(),
        ensures
            r == (spec_encode_chunks(self@) == spec_encode_chunks(other@)),
    {
        let a = self.write();
        let b = other.write();
        vec_u8_eq(&a, &b)
    }

    /// Copies every localization resource out of the container, each
    /// with the index of the chunk it came from.
    pub fn get_locals(&self) -> (r: Vec<LocalResource>)
        requires
            self.wf(),
        ensures
            locals_views(r@) == spec_get_locals(self@, 0),
            forall|j: int| 0 <= j < r@.len() ==> local_wf(#[trigger] r@[j]),
    {
        let mut out: Vec<LocalResource> = Vec::new();
        let mut i: usize = 0;
        proof {
            assert(locals_views(out@) =~= Seq::<LocalResourceModel>::empty());
            assert(Seq::<LocalResourceModel>::empty() + spec_get_locals(self@, 0)
                =~= spec_get_locals(self@, 0));
        }
        while i < self.chunks.len()
            invariant
                i <= self.chunks@.len(),
                self.wf(),
                spec_get_locals(self@, 0) == locals_views(out@) + spec_get_locals(
                    self@,
                    i as int,
                ),
                forall|j: int| 0 <= j < out@.len() ==> local_wf(#[trigger] out@[j]),
            decreases self.chunks@.len() - i,
        {
            proof {
                assert(self@[i as int] == self.chunks@[i as int]@);
            }
            match &self.chunks[i].variant {
                ChunkVariants::Localized(loc) => {
                    proof {
                        assert(wf_localized(loc@));
                    }
                    let texts = localized_texts_exec(loc);
                    let lr = LocalResource { index: i, strings: texts };
                    let ghost prev = locals_views(out@);
                    out.push(lr);
                    proof {
                        assert(locals_views(out@) =~= prev + seq![lr@]);
                        assert(lr@ == local_of_chunk(self@[i as int], i as int)->Some_0);
                        assert(prev + (seq![lr@] + spec_get_locals(self@, i + 1)) =~= (prev
                            + seq![lr@]) + spec_get_locals(self@, i + 1));
                    }
                },
                ChunkVariants::Others { .. } => {
                },
            }
            i = i + 1;
        }
        proof {
            assert(spec_get_locals(self@, i as int) =~= Seq::<LocalResourceModel>::empty());
            assert(locals_views(out@) + Seq::<LocalResourceModel>::empty() =~= locals_views(
                out@,
            ));
        }
        out
    }

    /// Applies edited resources back onto their chunks, in order; the
    /// first failing resource stops the batch, leaving the resources
    /// before it applied and the failing one untouched.
    pub fn update_locals(&mut self, locals: Vec<LocalResource>) -> (r: Result<(), DSError>)
        requires
            old(self).wf(),
            forall|i: int| 0 <= i < locals@.len() ==> local_wf(#[trigger] locals@[i]),
        ensures
            final(self).wf(),
            match r {
                Ok(_) => spec_update_locals(old(self)@, locals_views(locals@)) == Ok::<
                    _,
                    DSError,
                >(final(self)@),
                Err(e) => spec_update_locals(old(self)@, locals_views(locals@)) == Err::<
                    Seq<ChunkModel>,
                    _,
                >(e) && exists|k: int|
                    0 <= k <= locals@.len() && spec_update_locals(
                        old(self)@,
                        locals_views(locals@).subrange(0, k),
                    ) == Ok::<_, DSError>(final(self)@),
            },
    {
        let ghost lsv = locals_views(locals@);
        let ghost cs0 = old(self)@;
        let mut j: usize = 0;
        proof {
            assert(lsv.skip(0) =~= lsv);
            assert(lsv.subrange(0, 0) =~= Seq::<LocalResourceModel>::empty());
        }
        while j < locals.len()
            invariant
                j <= locals@.len(),
                lsv == locals_views(locals@),
                cs0 == old(self)@,
                forall|i: int| 0 <= i < locals@.len() ==> local_wf(#[trigger] locals@[i]),
                wf_chunks(chunks_views(self.chunks@)),
                spec_update_locals(cs0, lsv) == spec_update_locals(
                    chunks_views(self.chunks@),
                    lsv.skip(j as int),
                ),
                spec_update_locals(cs0, lsv.subrange(0, j as int)) == Ok::<_, DSError>(
                    chunks_views(self.chunks@),
                ),
            decreases locals@.len() - j,
        {
            let ghost cur = chunks_views(self.chunks@);
            proof {
                assert(lsv[j as int] == locals@[j as int]@);
                assert(lsv.skip(j as int)[0] == lsv[j as int]);
                assert(lsv.skip(j as int).skip(1) =~= lsv.skip(j + 1));
            }
            let lr = &locals[j];
            let idx = lr.index;
            if idx >= self.chunks.len() {
                proof {
                    assert(0 <= j as int <= lsv.len() && spec_update_locals(
                        cs0,
                        lsv.subrange(0, j as int),
                    ) == Ok::<_, DSError>(chunks_views(self.chunks@)));
                }
                return Err(
                    DSError::InvalidLocalResourceIdx { max: self.chunks.len(), got: idx },
                );
            }
            proof {
                assert(cur[idx as int] == self.chunks@[idx as int]@);
            }
            let magic = self.chunks[idx].magic;
            let applied: Result<ChunkVariants, DSError> = match &self.chunks[idx].variant {
                ChunkVariants::Localized(loc) => apply_localized(loc, &lr.strings),
                ChunkVariants::Others { .. } => {
                    proof {
                        assert(0 <= j as int <= lsv.len() && spec_update_locals(
                            cs0,
                            lsv.subrange(0, j as int),
                        ) == Ok::<_, DSError>(chunks_views(self.chunks@)));
                    }
                    return Err(
                        DSError::ResourceNotMatchAtIdx {
                            input: ResourceKind::Localized,
                            original: ResourceKind::Others,
                        },
                    );
                },
            };
            match applied {
                Err(e) => {
                    proof {
                        assert(0 <= j as int <= lsv.len() && spec_update_locals(
                            cs0,
                            lsv.subrange(0, j as int),
                        ) == Ok::<_, DSError>(chunks_views(self.chunks@)));
                    }
                    return Err(e);
                },
                Ok(newvariant) => {
                    let c = Chunk { magic, variant: newvariant };
                    let ghost cm = c@;
                    self.chunks.set(idx, c);
                    proof {
                        assert(chunks_views(self.chunks@) =~= cur.update(idx as int, cm));
                        assert(spec_apply_local(cur, lsv[j as int]) == Ok::<_, DSError>(
                            chunks_views(self.chunks@),
                        ));
                        lemma_update_snoc(cs0, lsv.subrange(0, j as int), lsv[j as int]);
                        assert(lsv.subrange(0, j + 1) =~= lsv.subrange(0, j as int).push(
                            lsv[j as int],
                        ));
                        assert forall|q: int|
                            0 <= q < chunks_views(self.chunks@).len() implies wf_chunk(
                            #[trigger] chunks_views(self.chunks@)[q],
                        ) by {
                            if q != idx {
                                assert(chunks_views(self.chunks@)[q] == cur[q]);
                            } else {
                                assert(chunks_views(self.chunks@)[q] == cm);
                                assert(wf_chunk(ChunkModel { magic: 0, variant: cm.variant }));
                            }
                        }
                    }
                    j = j + 1;
                },
            }
        }
        proof {
            assert(lsv.skip(j as int) =~= Seq::<LocalResourceModel>::empty());
            assert(lsv.subrange(0, j as int) =~= lsv);
        }
        Ok(())
    }
}

/// Copies the per-language texts of a `Localized` payload.
pub(crate) fn localized_texts_exec(loc: &Localized) -> (r: LangMap<Vec<u8>>)
    requires
        wf_localized(loc@),
    ensures
        r.wf(),
        bytes_views(r@) == localized_texts(loc@),
{
    let mut out: Vec<Vec<u8>> = Vec::new();
    let mut l: usize = 0;
    while l < 25
        invariant
            l <= 25,
            wf_localized(loc@),
            out@.len() == l,
            forall|j: int| 0 <= j < l ==> (#[trigger] bytes_views(out@)[j]) == localized_texts(loc@)[j],
        decreases 25 - l,
    {
        let g = loc.string_groups.get_at(l);
        let ghost pre = out@;
        let t = g.text.to_bytes();
        out.push(t);
        proof {
            assert(g@ == loc@.groups[l as int]);
            assert(localized_texts(loc@)[l as int] == loc@.groups[l as int].text);
            assert forall|j: int| 0 <= j < l + 1 implies (#[trigger] bytes_views(out@)[j])
                == localized_texts(loc@)[j] by {
                assert(bytes_views(out@)[j] == out@[j]@);
                if j < l {
                    assert(out@[j] == pre[j]);
                    assert(bytes_views(pre)[j] == pre[j]@);
                }
            }
        }
        l = l + 1;
    }
    match LangMap::<Vec<u8>>::from_vec(out) {
        Some(map) => {
            proof {
                assert(bytes_views(map@) =~= localized_texts(loc@));
            }
            map
        },
        None => {
            proof {
                assert(false);
            }
            LangMap::<Vec<u8>>::from_vec(Vec::new()).unwrap()
        },
    }
}

} // verus!
