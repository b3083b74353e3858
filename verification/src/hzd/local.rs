//! Loading, extracting, updating and re-encoding this title's
//! localization resources.

use crate::chunks::{encode_records, parse_records, record_views, records_wf, RawRecord};
use crate::error::Error;
use crate::error::ResourceKind;
use crate::hzd::error::HZDError;
use crate::hzd::structures::{
    chunk_records, distinct_codes, encode_variant, entry_views, group_views, parse_variant,
    spec_chunks_from_records, spec_encode_chunks, spec_encode_cutscene, spec_encode_localized,
    spec_narrow_seq_bytes, spec_parse_chunks, string_views, wf_chunk, wf_chunks, wf_cutscene,
    wf_localized, Chunk, ChunkModel, ChunkVariants, Cutscene, CutsceneModel, CutsceneStringData,
    CutsceneStringGroup, EntryModel, GroupModel, Localized, LocalizedModel, VariantModel,
};
use crate::fixed_map::EnumKey;
use crate::hzd::{LangMap, Language};
use crate::types::u16string::U16String;
use crate::types::u8string::U8String;
use crate::utf16::{utf16_decode, utf16_encode};
use crate::wire::{take_bytes, vec_u8_eq};
use vstd::prelude::*;
use vstd::utf8::{decode_utf8, encode_utf8, valid_utf8};

verus! {

// ----------------------------------------------------------- local views

/// The byte views of a list of byte vectors.
pub open spec fn bytes_views(vs: Seq<Vec<u8>>) -> Seq<Seq<u8>> {
    vs.map_values(|v: Vec<u8>| v@)
}

/// The byte views of a list of byte-vector lists.
pub open spec fn list_views(vs: Seq<Vec<Vec<u8>>>) -> Seq<Seq<Seq<u8>>> {
    vs.map_values(|v: Vec<Vec<u8>>| bytes_views(v@))
}

/// The two kinds of extracted resource content, as mathematical values.
pub ghost enum LocalModel {
    /// One UTF-8 text per language.
    Localized(Seq<Seq<u8>>),
    /// Per language, an ordered list of UTF-8 texts.
    Cutscene(Seq<Seq<Seq<u8>>>),
}

/// An extracted resource, as a mathematical value.
pub ghost struct LocalResourceModel {
    pub index: int,
    pub variant: LocalModel,
}

/// The text content of one resource: either one string per language, or
/// per-language ordered line lists.
pub enum LocalVariants {
    Localized(LangMap<Vec<u8>>),
    Cutscene(LangMap<Vec<Vec<u8>>>),
}

impl View for LocalVariants {
    type V = LocalModel;

    open spec fn view(&self) -> LocalModel {
        match self {
            LocalVariants::Localized(m) => LocalModel::Localized(bytes_views(m@)),
            LocalVariants::Cutscene(m) => LocalModel::Cutscene(list_views(m@)),
        }
    }
}

impl LocalVariants {
    /// The kind of the resource, by name.
    pub fn name(&self) -> (r: &'static str)
        ensures
            self is Localized ==> r@ == "Localized"@,
            self is Cutscene ==> r@ == "Cutscene"@,
    {
        match self {
            LocalVariants::Localized(_) => "Localized",
            LocalVariants::Cutscene(_) => "Cutscene",
        }
    }
}

/// An extraction view of one resource: its source chunk index and a copy
/// of its text content.
pub struct LocalResource {
    pub index: usize,
    pub variant: LocalVariants,
}

impl View for LocalResource {
    type V = LocalResourceModel;

    open spec fn view(&self) -> LocalResourceModel {
        LocalResourceModel { index: self.index as int, variant: self.variant@ }
    }
}

/// The models of a list of extracted resources.
pub open spec fn locals_views(ls: Seq<LocalResource>) -> Seq<LocalResourceModel> {
    ls.map_values(|l: LocalResource| l@)
}

// ------------------------------------------------- extraction, in spec

/// The UTF-8 texts of a list of timed entries.
pub open spec fn entry_texts(es: Seq<EntryModel>) -> Seq<Seq<u8>> {
    es.map_values(|e: EntryModel| encode_utf8(utf16_decode(e.units)))
}

/// True when some group carries the language code `l`.
pub open spec fn group_exists(gs: Seq<GroupModel>, l: int) -> bool {
    exists|gi: int| 0 <= gi < gs.len() && (#[trigger] gs[gi]).code == l
}

/// The entries of the group with language code `l`, if any.
pub open spec fn lang_entries(gs: Seq<GroupModel>, l: int) -> Seq<EntryModel> {
    if group_exists(gs, l) {
        gs[choose|gi: int| 0 <= gi < gs.len() && (#[trigger] gs[gi]).code == l].entries
    } else {
        Seq::empty()
    }
}

/// The texts of a cutscene, one ordered list per language code.
pub open spec fn cutscene_texts(m: CutsceneModel) -> Seq<Seq<Seq<u8>>> {
    Seq::new(21, |l: int| entry_texts(lang_entries(m.groups, l)))
}

/// The resource extracted from one chunk, if it holds one.
pub open spec fn local_of_chunk(c: ChunkModel, i: int) -> Option<LocalResourceModel> {
    match c.variant {
        VariantModel::Localized(m) => Some(
            LocalResourceModel { index: i, variant: LocalModel::Localized(m.strings) },
        ),
        VariantModel::Cutscene(m) => Some(
            LocalResourceModel { index: i, variant: LocalModel::Cutscene(cutscene_texts(m)) },
        ),
        VariantModel::Others(_) => None,
    }
}

/// Every resource extracted from the chunks at `i` and beyond.
pub open spec fn spec_get_locals(cs: Seq<ChunkModel>, i: int) -> Seq<LocalResourceModel>
    decreases cs.len() - i,
    when 0 <= i <= cs.len()
{
    if i >= cs.len() {
        Seq::empty()
    } else {
        match local_of_chunk(cs[i], i) {
            Some(l) => seq![l] + spec_get_locals(cs, i + 1),
            None => spec_get_locals(cs, i + 1),
        }
    }
}

/// True when some chunk holds a localization resource.
pub open spec fn spec_has_local(cs: Seq<ChunkModel>) -> bool {
    exists|i: int|
        0 <= i < cs.len() && !((#[trigger] cs[i]).variant is Others)
}

/// Decoding a container: the chunks, or `NoLocalResource` when none of
/// them holds text.
pub open spec fn spec_new(d: Seq<u8>) -> Result<Seq<ChunkModel>, Error> {
    match spec_parse_chunks(d) {
        Err(e) => Err(e),
        Ok(cs) => if !spec_has_local(cs) {
            Err(Error::NoLocalResource)
        } else {
            Ok(cs)
        },
    }
}

// ----------------------------------------------------------- container

/// The models of a list of chunks.
pub open spec fn chunks_views(cs: Seq<Chunk>) -> Seq<ChunkModel> {
    cs.map_values(|c: Chunk| c@)
}

/// A loaded container of this title.
pub struct HZDLocal {
    pub chunks: Vec<Chunk>,
}

impl View for HZDLocal {
    type V = Seq<ChunkModel>;

    open spec fn view(&self) -> Seq<ChunkModel> {
        chunks_views(self.chunks@)
    }
}

/// Unfolds one step of `spec_chunks_from_records` at `i`.
proof fn lemma_chunks_from_records_step(rs: Seq<(u64, Seq<u8>)>, i: int)
    requires
        0 <= i <= rs.len(),
    ensures
        i == rs.len() ==> spec_chunks_from_records(rs.skip(i)) == Ok::<_, Error>(
            Seq::<ChunkModel>::empty(),
        ),
        i < rs.len() ==> rs.skip(i)[0] == rs[i] && rs.skip(i).skip(1) == rs.skip(i + 1),
{
    let t = rs.skip(i);
    if i < rs.len() {
        assert(t[0] == rs[i]);
        assert(t.skip(1) =~= rs.skip(i + 1));
    }
}

impl HZDLocal {
    /// The container's chunks are well formed.
    pub open spec fn wf(&self) -> bool {
        wf_chunks(self@)
    }

    /// Decodes a container from its bytes.  Fails with `NoLocalResource`
    /// when no chunk holds a localization resource.
    pub fn new(data: &Vec<u8>) -> (r: Result<HZDLocal, Error>)
        ensures
            match r {
                Ok(h) => spec_new(data@) == Ok::<_, Error>(h@) && h.wf(),
                Err(e) => spec_new(data@) == Err::<Seq<ChunkModel>, _>(e),
            },
    {
        let records = match parse_records(data) {
            Ok(rs) => rs,
            Err(e) => {
                return Err(e);
            },
        };
        let ghost rsv = record_views(records@);
        let mut chunks: Vec<Chunk> = Vec::new();
        let mut i: usize = 0;
        proof {
            assert(rsv.skip(0) =~= rsv);
            if spec_chunks_from_records(rsv) is Ok {
                let rest = spec_chunks_from_records(rsv)->Ok_0;
                assert(Seq::<ChunkModel>::empty() + rest =~= rest);
            }
        }
        while i < records.len()
            invariant
                i <= records@.len(),
                rsv == record_views(records@),
                crate::chunks::spec_parse_records(data@, 0) == Ok::<_, Error>(rsv),
                chunks@.len() == i,
                match spec_chunks_from_records(rsv.skip(i as int)) {
                    Ok(rest) => spec_chunks_from_records(rsv) == Ok::<_, Error>(
                        chunks_views(chunks@) + rest,
                    ),
                    Err(e) => spec_chunks_from_records(rsv) == Err::<Seq<ChunkModel>, _>(e),
                },
            decreases records@.len() - i,
        {
            proof {
                lemma_chunks_from_records_step(rsv, i as int);
                assert(rsv[i as int] == records@[i as int]@);
            }
            let rec = &records[i];
            match parse_variant(rec.magic, &rec.payload) {
                Err(e) => {
                    return Err(e);
                },
                Ok(v) => {
                    let c = Chunk { magic: rec.magic, variant: v };
                    let ghost prev = chunks_views(chunks@);
                    chunks.push(c);
                    proof {
                        assert(chunks_views(chunks@) =~= prev + seq![c@]);
                        if spec_chunks_from_records(rsv.skip(i + 1)) is Ok {
                            let rest = spec_chunks_from_records(rsv.skip(i + 1))->Ok_0;
                            assert(prev + (seq![c@] + rest) =~= (prev + seq![c@]) + rest);
                        }
                    }
                    i = i + 1;
                },
            }
        }
        proof {
            lemma_chunks_from_records_step(rsv, i as int);
            assert(chunks_views(chunks@) + Seq::<ChunkModel>::empty() =~= chunks_views(chunks@));
        }
        let h = HZDLocal { chunks };
        if !h.has_local() {
            return Err(Error::NoLocalResource);
        }
        proof {
            crate::hzd::structures::lemma_chunks_roundtrip(data@);
        }
        Ok(h)
    }

    /// True when some chunk holds a localization resource.
    fn has_local(&self) -> (r: bool)
        ensures
            r == spec_has_local(self@),
    {
        let mut i: usize = 0;
        while i < self.chunks.len()
            invariant
                i <= self.chunks@.len(),
                forall|j: int| 0 <= j < i ==> (#[trigger] chunks_views(self.chunks@)[j]).variant is Others,
            decreases self.chunks@.len() - i,
        {
            match &self.chunks[i].variant {
                ChunkVariants::Others { .. } => {
                    proof {
                        assert(chunks_views(self.chunks@)[i as int] == self.chunks@[i as int]@);
                    }
                },
                _ => {
                    proof {
                        assert(chunks_views(self.chunks@)[i as int] == self.chunks@[i as int]@);
                        assert(!(chunks_views(self.chunks@)[i as int].variant is Others));
                    }
                    return true;
                },
            }
            i = i + 1;
        }
        false
    }

    /// Serializes the container, recomputing every size field from the
    /// payload's actual serialized length.
    pub fn write(&self) -> (r: Vec<u8>)
        requires
            self.wf(),
        ensures
            r@ == spec_encode_chunks(self@),
    {
        let mut records: Vec<RawRecord> = Vec::new();
        let mut i: usize = 0;
        while i < self.chunks.len()
            invariant
                i <= self.chunks@.len(),
                self.wf(),
                records@.len() == i,
                forall|j: int|
                    0 <= j < i ==> (#[trigger] record_views(records@)[j]) == chunk_records(
                        self@,
                    )[j],
            decreases self.chunks@.len() - i,
        {
            let c = &self.chunks[i];
            proof {
                assert(self@[i as int] == self.chunks@[i as int]@);
                assert(wf_chunk(self@[i as int]));
            }
            let payload = encode_variant(&c.variant);
            let ghost prev = record_views(records@);
            records.push(RawRecord { magic: c.magic, payload });
            proof {
                assert(record_views(records@) =~= prev + seq![
                    (c.magic, crate::hzd::structures::spec_encode_variant(c.variant@)),
                ]);
            }
            i = i + 1;
        }
        proof {
            assert(record_views(records@) =~= chunk_records(self@));
            assert(records_wf(record_views(records@))) by {
                assert(forall|j: int|
                    0 <= j < self@.len() ==> wf_chunk(#[trigger] self@[j]));
                assert(forall|j: int|
                    0 <= j < chunk_records(self@).len() ==> #[trigger] chunk_records(self@)[j]
                        == (self@[j].magic, crate::hzd::structures::spec_encode_variant(
                        self@[j].variant,
                    )));
            }
        }
        encode_records(&records)
    }

    /// True exactly when the two containers serialize to the same bytes:
    /// the pure, structural comparison behind "skip the write when
    /// nothing changed".
    pub fn content_equals(&self, other: &HZDLocal) -> (r: bool)
        requires
            self.wf(),
            other.wf(),
        ensures
            r == (spec_encode_chunks(self@) == spec_encode_chunks(other@)),
    {
        let a = self.write();
        let b = other.write();
        vec_u8_eq(&a, &b)
    }
}


// ------------------------------------------------------ update, in spec

/// The UTF-16 code units of a UTF-8 text.
pub open spec fn conv_units(t: Seq<u8>) -> Seq<u16> {
    utf16_encode(decode_utf8(t))
}

/// The first replacement string too long for the narrow prefix, if any.
pub open spec fn find_long_narrow(texts: Seq<Seq<u8>>, i: int) -> Option<int>
    decreases texts.len() - i,
    when 0 <= i <= texts.len()
{
    if i >= texts.len() {
        None
    } else if texts[i].len() > 0xffff {
        Some(i)
    } else {
        find_long_narrow(texts, i + 1)
    }
}

/// Replacing every string of a `Localized` payload; a string beyond the
/// 16-bit prefix is rejected.
pub open spec fn spec_update_localized(m: LocalizedModel, texts: Seq<Seq<u8>>) -> Result<
    LocalizedModel,
    HZDError,
> {
    match find_long_narrow(texts, 0) {
        Some(i) => Err(HZDError::StringTooLong { got: texts[i].len() as usize, max: 0xffff }),
        None => Ok(LocalizedModel { uuid: m.uuid, strings: texts }),
    }
}

/// The first replacement text whose code units overflow the wide prefix.
pub open spec fn find_long_units(ts: Seq<Seq<u8>>, k: int) -> Option<int>
    decreases ts.len() - k,
    when 0 <= k <= ts.len()
{
    if k >= ts.len() {
        None
    } else if conv_units(ts[k]).len() > 0xffff_ffff {
        Some(k)
    } else {
        find_long_units(ts, k + 1)
    }
}

/// Checks a cutscene update language by language: every per-language list
/// must keep its original length, and every text must fit its prefix.
pub open spec fn spec_check_cutscene(
    gs: Seq<GroupModel>,
    texts: Seq<Seq<Seq<u8>>>,
    l: int,
) -> Option<HZDError>
    decreases 21 - l,
    when 0 <= l <= 21
{
    if l >= 21 {
        None
    } else {
        let es = lang_entries(gs, l);
        let ts = texts[l];
        if ts.len() != es.len() {
            Some(
                HZDError::CutsceneLinesDoesntMatch {
                    lang: Language::spec_from_code(l),
                    expected: es.len() as usize,
                    got: ts.len() as usize,
                },
            )
        } else {
            match find_long_units(ts, 0) {
                Some(k) => Some(
                    HZDError::StringTooLong { got: ts[k].len() as usize, max: 0xffff_ffff },
                ),
                None => spec_check_cutscene(gs, texts, l + 1),
            }
        }
    }
}

/// The groups with every line replaced by its language's new text, the
/// timings untouched.
pub open spec fn spec_replace_groups(gs: Seq<GroupModel>, texts: Seq<Seq<Seq<u8>>>) -> Seq<
    GroupModel,
> {
    gs.map_values(
        |g: GroupModel|
            GroupModel {
                code: g.code,
                entries: Seq::new(
                    g.entries.len(),
                    |k: int|
                        EntryModel {
                            units: conv_units(texts[g.code as int][k]),
                            timing: g.entries[k].timing,
                        },
                ),
            },
    )
}

/// Replacing the lines of a `Cutscene` payload: all checks first, then
/// the whole replacement, so a failing update changes nothing.
pub open spec fn spec_update_cutscene(m: CutsceneModel, texts: Seq<Seq<Seq<u8>>>) -> Result<
    CutsceneModel,
    HZDError,
> {
    match spec_check_cutscene(m.groups, texts, 0) {
        Some(e) => Err(e),
        None => {
            let m2 = CutsceneModel {
                uuid: m.uuid,
                block: m.block,
                groups: spec_replace_groups(m.groups, texts),
                tail: m.tail,
            };
            if spec_encode_cutscene(m2).len() > 0xffff_ffff {
                Err(HZDError::ResourceTooBig { got: spec_encode_cutscene(m2).len() as usize })
            } else {
                Ok(m2)
            }
        },
    }
}

/// The kind of an update payload.
pub open spec fn kind_of_local(v: LocalModel) -> ResourceKind {
    match v {
        LocalModel::Localized(_) => ResourceKind::Localized,
        LocalModel::Cutscene(_) => ResourceKind::Cutscene,
    }
}

/// The kind of a chunk payload.
pub open spec fn kind_of_variant(v: VariantModel) -> ResourceKind {
    match v {
        VariantModel::Localized(_) => ResourceKind::Localized,
        VariantModel::Cutscene(_) => ResourceKind::Cutscene,
        VariantModel::Others(_) => ResourceKind::Others,
    }
}

/// Applies one resource update to the chunk it names.
pub open spec fn spec_apply_local(cs: Seq<ChunkModel>, l: LocalResourceModel) -> Result<
    Seq<ChunkModel>,
    HZDError,
> {
    if l.index < 0 || l.index >= cs.len() {
        Err(HZDError::InvalidLocalResourceIdx { max: cs.len() as usize, got: l.index as usize })
    } else {
        let c = cs[l.index];
        match (l.variant, c.variant) {
            (LocalModel::Localized(texts), VariantModel::Localized(m)) => match
                spec_update_localized(m, texts) {
                Err(e) => Err(e),
                Ok(m2) => Ok(
                    cs.update(
                        l.index,
                        ChunkModel { magic: c.magic, variant: VariantModel::Localized(m2) },
                    ),
                ),
            },
            (LocalModel::Cutscene(texts), VariantModel::Cutscene(m)) => match spec_update_cutscene(
                m,
                texts,
            ) {
                Err(e) => Err(e),
                Ok(m2) => Ok(
                    cs.update(
                        l.index,
                        ChunkModel { magic: c.magic, variant: VariantModel::Cutscene(m2) },
                    ),
                ),
            },
            (lv, cv) => Err(
                HZDError::ResourceNotMatchAtIdx {
                    input: kind_of_local(lv),
                    original: kind_of_variant(cv),
                },
            ),
        }
    }
}

/// Applies a list of resource updates in order; the first failure stops
/// the batch, leaving earlier updates applied.
pub open spec fn spec_update_locals(cs: Seq<ChunkModel>, ls: Seq<LocalResourceModel>) -> Result<
    Seq<ChunkModel>,
    HZDError,
>
    decreases ls.len(),
{
    if ls.len() == 0 {
        Ok(cs)
    } else {
        match spec_apply_local(cs, ls[0]) {
            Err(e) => Err(e),
            Ok(cs2) => spec_update_locals(cs2, ls.skip(1)),
        }
    }
}


// ------------------------------------------------------ update lemmas

/// `find_long_narrow` skips a prefix of fitting strings.
pub(crate) proof fn lemma_find_long_narrow_prefix(texts: Seq<Seq<u8>>, i: int)
    requires
        0 <= i <= texts.len(),
        forall|j: int| 0 <= j < i ==> (#[trigger] texts[j]).len() <= 0xffff,
    ensures
        find_long_narrow(texts, 0) == find_long_narrow(texts, i),
    decreases i,
{
    if i > 0 {
        lemma_find_long_narrow_prefix(texts, i - 1);
    }
}

/// `find_long_units` skips a prefix of fitting texts.
pub(crate) proof fn lemma_find_long_units_prefix(ts: Seq<Seq<u8>>, k: int)
    requires
        0 <= k <= ts.len(),
        forall|j: int| 0 <= j < k ==> conv_units(#[trigger] ts[j]).len() <= 0xffff_ffff,
    ensures
        find_long_units(ts, 0) == find_long_units(ts, k),
    decreases k,
{
    if k > 0 {
        lemma_find_long_units_prefix(ts, k - 1);
    }
}

/// When no text is over-long from `i` on, the text at `k` fits.
pub(crate) proof fn lemma_find_long_units_none_from(ts: Seq<Seq<u8>>, i: int, k: int)
    requires
        find_long_units(ts, i) is None,
        0 <= i <= k < ts.len(),
    ensures
        conv_units(ts[k]).len() <= 0xffff_ffff,
    decreases k - i,
{
    if i < k {
        lemma_find_long_units_none_from(ts, i + 1, k);
    }
}

/// When no text is over-long, every text fits.
pub(crate) proof fn lemma_find_long_units_none(ts: Seq<Seq<u8>>, k: int)
    requires
        find_long_units(ts, 0) is None,
        0 <= k < ts.len(),
    ensures
        conv_units(ts[k]).len() <= 0xffff_ffff,
{
    lemma_find_long_units_none_from(ts, 0, k);
}

/// `spec_check_cutscene` skips a prefix of passing languages.
pub(crate) proof fn lemma_check_cutscene_prefix(gs: Seq<GroupModel>, texts: Seq<Seq<Seq<u8>>>, l: int)
    requires
        0 <= l <= 21,
        forall|j: int|
            0 <= j < l ==> (#[trigger] texts[j]).len() == lang_entries(gs, j).len()
                && find_long_units(texts[j], 0) is None,
    ensures
        spec_check_cutscene(gs, texts, 0) == spec_check_cutscene(gs, texts, l),
    decreases l,
{
    if l > 0 {
        lemma_check_cutscene_prefix(gs, texts, l - 1);
        assert(texts[l - 1].len() == lang_entries(gs, l - 1).len());
        assert(find_long_units(texts[l - 1], 0) is None);
        assert(spec_check_cutscene(gs, texts, l - 1) == spec_check_cutscene(gs, texts, l));
    }
}

/// Applying one more update to a batch composes.
proof fn lemma_update_snoc(cs: Seq<ChunkModel>, ls: Seq<LocalResourceModel>, l: LocalResourceModel)
    ensures
        spec_update_locals(cs, ls.push(l)) == match spec_update_locals(cs, ls) {
            Ok(cs2) => spec_apply_local(cs2, l),
            Err(e) => Err(e),
        },
    decreases ls.len(),
{
    let lsp = ls.push(l);
    if ls.len() == 0 {
        assert(lsp[0] == l);
        assert(lsp.skip(1) =~= Seq::<LocalResourceModel>::empty());
        match spec_apply_local(cs, l) {
            Err(e) => {
                assert(spec_update_locals(cs, lsp) == Err::<Seq<ChunkModel>, HZDError>(e));
            },
            Ok(cs2) => {
                assert(spec_update_locals(cs2, lsp.skip(1)) == Ok::<_, HZDError>(cs2));
                assert(spec_update_locals(cs, lsp) == Ok::<_, HZDError>(cs2));
            },
        }
        assert(spec_update_locals(cs, ls) == Ok::<_, HZDError>(cs));
    } else {
        assert(lsp[0] == ls[0]);
        assert(lsp.skip(1) =~= ls.skip(1).push(l));
        match spec_apply_local(cs, ls[0]) {
            Err(e) => {
                assert(spec_update_locals(cs, lsp) == Err::<Seq<ChunkModel>, HZDError>(e));
                assert(spec_update_locals(cs, ls) == Err::<Seq<ChunkModel>, HZDError>(e));
            },
            Ok(cs2) => {
                lemma_update_snoc(cs2, ls.skip(1), l);
                assert(spec_update_locals(cs, lsp) == spec_update_locals(
                    cs2,
                    ls.skip(1).push(l),
                ));
                assert(spec_update_locals(cs, ls) == spec_update_locals(cs2, ls.skip(1)));
            },
        }
    }
}

/// The serialized size of a well-formed `Localized` payload always fits
/// the 32-bit size field.
proof fn lemma_narrow_seq_len(ss: Seq<Seq<u8>>)
    requires
        forall|i: int| 0 <= i < ss.len() ==> (#[trigger] ss[i]).len() <= 0xffff,
    ensures
        spec_narrow_seq_bytes(ss).len() <= ss.len() * 0x10001,
    decreases ss.len(),
{
    if ss.len() > 0 {
        assert forall|i: int|
            0 <= i < ss.skip(1).len() implies (#[trigger] ss.skip(1)[i]).len() <= 0xffff by {
            assert(ss.skip(1)[i] == ss[i + 1]);
        }
        lemma_narrow_seq_len(ss.skip(1));
        vstd::bytes::lemma_auto_spec_u16_to_from_le_bytes();
        assert(crate::types::u8string::spec_encode_narrow(ss[0]).len() == 2 + ss[0].len());
        assert(spec_narrow_seq_bytes(ss).len() <= 0x10001 + spec_narrow_seq_bytes(
            ss.skip(1),
        ).len());
        assert(ss.skip(1).len() * 0x10001 == (ss.len() - 1) * 0x10001) by (nonlinear_arith)
            requires
                ss.len() >= 1 && ss.skip(1).len() == ss.len() - 1,
        ;
        assert((ss.len() - 1) * 0x10001 + 0x10001 == ss.len() * 0x10001) by (nonlinear_arith);
    }
}

/// A well-formed `Localized` payload fits its size field.
pub proof fn lemma_localized_size_bound(m: LocalizedModel)
    requires
        wf_localized(m),
    ensures
        spec_encode_localized(m).len() <= 0xffff_ffff,
{
    lemma_narrow_seq_len(m.strings);
}

/// There is exactly one group per code: the chosen group is the found one.
pub(crate) proof fn lemma_lang_entries_unique(gs: Seq<GroupModel>, gi: int)
    requires
        distinct_codes(gs),
        0 <= gi < gs.len(),
    ensures
        lang_entries(gs, gs[gi].code as int) == gs[gi].entries,
{
    let l = gs[gi].code as int;
    assert(group_exists(gs, l));
    let gj = choose|gj: int| 0 <= gj < gs.len() && (#[trigger] gs[gj]).code == l;
    if gj < gi {
        assert(gs[gj].code != gs[gi].code);
        assert(false);
    } else if gj > gi {
        assert(gs[gi].code != gs[gj].code);
        assert(false);
    }
}

// --------------------------------------------------- executable helpers

/// The position of the group carrying `code`, if any.
fn find_group_index(groups: &Vec<CutsceneStringGroup>, code: u32) -> (r: Option<usize>)
    ensures
        match r {
            Some(gi) => gi < groups@.len() && group_views(groups@)[gi as int].code == code,
            None => !group_exists(group_views(groups@), code as int),
        },
{
    let mut i: usize = 0;
    while i < groups.len()
        invariant
            i <= groups@.len(),
            forall|j: int| 0 <= j < i ==> (#[trigger] group_views(groups@)[j]).code != code,
        decreases groups@.len() - i,
    {
        proof {
            assert(group_views(groups@)[i as int] == groups@[i as int]@);
        }
        if groups[i].lang_code == code {
            return Some(i);
        }
        i = i + 1;
    }
    None
}

/// Copies the UTF-8 texts out of a list of timed entries.
fn entry_texts_exec(es: &Vec<CutsceneStringData>) -> (r: Vec<Vec<u8>>)
    ensures
        bytes_views(r@) == entry_texts(entry_views(es@)),
{
    let mut out: Vec<Vec<u8>> = Vec::new();
    let mut k: usize = 0;
    while k < es.len()
        invariant
            k <= es@.len(),
            out@.len() == k,
            forall|j: int|
                0 <= j < k ==> (#[trigger] bytes_views(out@)[j]) == entry_texts(
                    entry_views(es@),
                )[j],
        decreases es@.len() - k,
    {
        let ghost pre = out@;
        let t = es[k].string.to_text_bytes();
        out.push(t);
        proof {
            assert(entry_views(es@)[k as int] == es@[k as int]@);
            assert forall|j: int| 0 <= j < k + 1 implies (#[trigger] bytes_views(out@)[j])
                == entry_texts(entry_views(es@))[j] by {
                assert(bytes_views(out@)[j] == out@[j]@);
                if j < k {
                    assert(out@[j] == pre[j]);
                    assert(bytes_views(pre)[j] == pre[j]@);
                }
            }
        }
        k = k + 1;
    }
    proof {
        assert(bytes_views(out@) =~= entry_texts(entry_views(es@)));
    }
    out
}

/// Copies the per-language strings of a `Localized` payload.
pub(crate) fn localized_texts(loc: &Localized) -> (r: LangMap<Vec<u8>>)
    requires
        wf_localized(loc@),
    ensures
        r.wf(),
        bytes_views(r@) == loc@.strings,
{
    let mut out: Vec<Vec<u8>> = Vec::new();
    let mut l: usize = 0;
    while l < 21
        invariant
            l <= 21,
            wf_localized(loc@),
            out@.len() == l,
            forall|j: int| 0 <= j < l ==> (#[trigger] bytes_views(out@)[j]) == loc@.strings[j],
        decreases 21 - l,
    {
        let s = loc.strings.get_at(l);
        let ghost pre = out@;
        let t = s.to_bytes();
        out.push(t);
        proof {
            assert(loc@.strings[l as int] == string_views(loc.strings@)[l as int]);
            assert forall|j: int| 0 <= j < l + 1 implies (#[trigger] bytes_views(out@)[j])
                == loc@.strings[j] by {
                assert(bytes_views(out@)[j] == out@[j]@);
                if j < l {
                    assert(out@[j] == pre[j]);
                    assert(bytes_views(pre)[j] == pre[j]@);
                }
            }
        }
        l = l + 1;
    }
    match LangMap::<Vec<u8>>::from_vec(out) {
        Some(map) => {
            proof {
                assert(bytes_views(map@) =~= loc@.strings);
            }
            map
        },
        None => {
            proof {
                assert(false);
            }
            LangMap::<Vec<u8>>::from_vec(Vec::new()).unwrap()
        },
    }
}

/// Copies the per-language line lists of a `Cutscene` payload.
pub(crate) fn cutscene_texts_exec(cut: &Cutscene) -> (r: LangMap<Vec<Vec<u8>>>)
    requires
        wf_cutscene(cut@),
    ensures
        r.wf(),
        list_views(r@) == cutscene_texts(cut@),
{
    let mut out: Vec<Vec<Vec<u8>>> = Vec::new();
    let mut l: usize = 0;
    while l < 21
        invariant
            l <= 21,
            wf_cutscene(cut@),
            out@.len() == l,
            forall|j: int| 0 <= j < l ==> (#[trigger] list_views(out@)[j]) == cutscene_texts(cut@)[j],
        decreases 21 - l,
    {
        let texts: Vec<Vec<u8>> = match find_group_index(&cut.groups, l as u32) {
            Some(gi) => {
                proof {
                    assert(group_views(cut.groups@)[gi as int] == cut.groups@[gi as int]@);
                    lemma_lang_entries_unique(cut@.groups, gi as int);
                }
                entry_texts_exec(&cut.groups[gi].strings_data)
            },
            None => {
                proof {
                    assert(entry_texts(lang_entries(cut@.groups, l as int))
                        =~= Seq::<Seq<u8>>::empty());
                }
                Vec::new()
            },
        };
        let ghost pre = out@;
        let ghost texts_view = bytes_views(texts@);
        out.push(texts);
        proof {
            assert(cutscene_texts(cut@)[l as int] == entry_texts(
                lang_entries(cut@.groups, l as int),
            ));
            assert(bytes_views(Seq::<Vec<u8>>::empty()) =~= Seq::<Seq<u8>>::empty());
            assert forall|j: int| 0 <= j < l + 1 implies (#[trigger] list_views(out@)[j])
                == cutscene_texts(cut@)[j] by {
                assert(list_views(out@)[j] == bytes_views(out@[j]@));
                if j < l {
                    assert(out@[j] == pre[j]);
                    assert(list_views(pre)[j] == bytes_views(pre[j]@));
                } else {
                    assert(bytes_views(out@[j]@) == texts_view);
                }
            }
        }
        l = l + 1;
    }
    match LangMap::<Vec<Vec<u8>>>::from_vec(out) {
        Some(map) => {
            proof {
                assert(list_views(map@) =~= cutscene_texts(cut@));
            }
            map
        },
        None => {
            proof {
                assert(false);
            }
            LangMap::<Vec<Vec<u8>>>::from_vec(Vec::new()).unwrap()
        },
    }
}

// ------------------------------------------------------- update helpers

/// A resource update's maps hold one entry per language.
pub open spec fn local_wf(l: LocalResource) -> bool {
    match l.variant {
        LocalVariants::Localized(m) => m.wf(),
        LocalVariants::Cutscene(m) => m.wf(),
    }
}

/// A resource update's texts are valid UTF-8 (they come from decoded
/// text files or documents).
pub open spec fn local_input_ok(l: LocalResourceModel) -> bool {
    match l.variant {
        LocalModel::Localized(_) => true,
        LocalModel::Cutscene(texts) => forall|a: int, b: int|
            0 <= a < texts.len() && 0 <= b < texts[a].len() ==> valid_utf8(
                #[trigger] texts[a][b],
            ),
    }
}

/// Replaces the strings of a `Localized` payload.
fn apply_localized(loc: &Localized, texts: &LangMap<Vec<u8>>) -> (r: Result<
    ChunkVariants,
    HZDError,
>)
    requires
        texts.wf(),
        wf_localized(loc@),
    ensures
        match r {
            Ok(v) => {
                &&& v is Localized
                &&& spec_update_localized(loc@, bytes_views(texts@)) matches Ok(m2) && v@
                    == VariantModel::Localized(m2)
                &&& wf_chunk(ChunkModel { magic: 0, variant: v@ })
            },
            Err(e) => spec_update_localized(loc@, bytes_views(texts@)) == Err::<
                LocalizedModel,
                _,
            >(e),
        },
{
    let ghost tv = bytes_views(texts@);
    let mut strs: Vec<U8String> = Vec::new();
    let mut l: usize = 0;
    while l < 21
        invariant
            l <= 21,
            texts.wf(),
            wf_localized(loc@),
            tv == bytes_views(texts@),
            strs@.len() == l,
            forall|j: int| 0 <= j < l ==> (#[trigger] tv[j]).len() <= 0xffff,
            forall|j: int| 0 <= j < l ==> (#[trigger] strs@[j])@ == tv[j],
        decreases 21 - l,
    {
        let t = texts.get_at(l);
        proof {
            assert(tv[l as int] == texts@[l as int]@);
        }
        let copy = take_bytes(t, 0, t.len());
        match U8String::from_bytes(copy) {
            Some(s) => {
                strs.push(s);
                l = l + 1;
            },
            None => {
                proof {
                    lemma_find_long_narrow_prefix(tv, l as int);
                }
                return Err(HZDError::StringTooLong { got: t.len(), max: 0xffff });
            },
        }
    }
    proof {
        lemma_find_long_narrow_prefix(tv, 21);
    }
    let uuid = take_bytes(&loc.uuid, 0, loc.uuid.len());
    match LangMap::<U8String>::from_vec(strs) {
        Some(map) => {
            let m2 = Localized { uuid, strings: map };
            proof {
                assert(string_views(m2.strings@) =~= tv);
                assert(m2@.uuid =~= loc@.uuid);
                lemma_localized_size_bound(m2@);
            }
            Ok(ChunkVariants::Localized(m2))
        },
        None => {
            proof {
                assert(false);
            }
            Err(HZDError::StringTooLong { got: 0, max: 0 })
        },
    }
}

/// Replaces the lines of a `Cutscene` payload: every check first, then
/// the whole replacement, so a failing update changes nothing.
fn apply_cutscene(cut: &Cutscene, texts: &LangMap<Vec<Vec<u8>>>) -> (r: Result<
    ChunkVariants,
    HZDError,
>)
    requires
        texts.wf(),
        wf_cutscene(cut@),
        forall|a: int, b: int|
            0 <= a < list_views(texts@).len() && 0 <= b < list_views(texts@)[a].len()
                ==> valid_utf8(#[trigger] list_views(texts@)[a][b]),
    ensures
        match r {
            Ok(v) => {
                &&& v is Cutscene
                &&& spec_update_cutscene(cut@, list_views(texts@)) matches Ok(m2) && v@
                    == VariantModel::Cutscene(m2)
                &&& wf_chunk(ChunkModel { magic: 0, variant: v@ })
            },
            Err(e) => spec_update_cutscene(cut@, list_views(texts@)) == Err::<CutsceneModel, _>(e),
        },
{
    let ghost tv = list_views(texts@);
    let ghost gsv = cut@.groups;
    // Check every language before touching anything.
    let mut l: usize = 0;
    while l < 21
        invariant
            l <= 21,
            texts.wf(),
            wf_cutscene(cut@),
            tv == list_views(texts@),
            gsv == cut@.groups,
            forall|a: int, b: int|
                0 <= a < tv.len() && 0 <= b < tv[a].len() ==> valid_utf8(#[trigger] tv[a][b]),
            forall|j: int|
                0 <= j < l ==> (#[trigger] tv[j]).len() == lang_entries(gsv, j).len()
                    && find_long_units(tv[j], 0) is None,
        decreases 21 - l,
    {
        let ts = texts.get_at(l);
        proof {
            assert(tv[l as int] == bytes_views(texts@[l as int]@));
        }
        let expected: usize = match find_group_index(&cut.groups, l as u32) {
            Some(gi) => {
                proof {
                    assert(group_views(cut.groups@)[gi as int] == cut.groups@[gi as int]@);
                    lemma_lang_entries_unique(gsv, gi as int);
                }
                cut.groups[gi].strings_data.len()
            },
            None => 0,
        };
        if ts.len() != expected {
            let lang = Language::from_code(l);
            proof {
                lemma_check_cutscene_prefix(gsv, tv, l as int);
                crate::hzd::lemma_from_code_matches_spec(l as int);
                crate::hzd::lemma_lang_code_injective(lang, Language::spec_from_code(l as int));
            }
            return Err(
                HZDError::CutsceneLinesDoesntMatch { lang, expected, got: ts.len() },
            );
        }
        let mut k: usize = 0;
        while k < ts.len()
            invariant
                l < 21,
                k <= ts@.len(),
                texts.wf(),
                tv == list_views(texts@),
                gsv == cut@.groups,
                tv[l as int] == bytes_views(ts@),
                tv[l as int].len() == lang_entries(gsv, l as int).len(),
                forall|a: int, b: int|
                    0 <= a < tv.len() && 0 <= b < tv[a].len() ==> valid_utf8(
                        #[trigger] tv[a][b],
                    ),
                forall|j: int|
                    0 <= j < l ==> (#[trigger] tv[j]).len() == lang_entries(gsv, j).len()
                        && find_long_units(tv[j], 0) is None,
                forall|j: int|
                    0 <= j < k ==> conv_units(#[trigger] tv[l as int][j]).len() <= 0xffff_ffff,
            decreases ts@.len() - k,
        {
            proof {
                assert(tv[l as int][k as int] == ts@[k as int]@);
            }
            match U16String::from_text_bytes(&ts[k]) {
                Some(_) => {
                    k = k + 1;
                },
                None => {
                    proof {
                        assert(valid_utf8(tv[l as int][k as int]));
                    }
                    let got = ts[k].len();
                    proof {
                        lemma_find_long_units_prefix(tv[l as int], k as int);
                        lemma_check_cutscene_prefix(gsv, tv, l as int);
                    }
                    return Err(HZDError::StringTooLong { got, max: 0xffff_ffff });
                },
            }
        }
        proof {
            lemma_find_long_units_prefix(tv[l as int], ts@.len() as int);
        }
        l = l + 1;
    }
    proof {
        lemma_check_cutscene_prefix(gsv, tv, 21);
    }
    // Build the replacement.
    let ghost rgs = spec_replace_groups(gsv, tv);
    let mut newgroups: Vec<CutsceneStringGroup> = Vec::new();
    let mut gi: usize = 0;
    while gi < cut.groups.len()
        invariant
            gi <= cut.groups@.len(),
            texts.wf(),
            wf_cutscene(cut@),
            tv == list_views(texts@),
            gsv == cut@.groups,
            rgs == spec_replace_groups(gsv, tv),
            forall|a: int, b: int|
                0 <= a < tv.len() && 0 <= b < tv[a].len() ==> valid_utf8(#[trigger] tv[a][b]),
            forall|j: int|
                0 <= j < 21 ==> (#[trigger] tv[j]).len() == lang_entries(gsv, j).len()
                    && find_long_units(tv[j], 0) is None,
            newgroups@.len() == gi,
            forall|j: int| 0 <= j < gi ==> (#[trigger] group_views(newgroups@)[j]) == rgs[j],
        decreases cut.groups@.len() - gi,
    {
        let g = &cut.groups[gi];
        proof {
            assert(gsv[gi as int] == cut.groups@[gi as int]@);
            lemma_lang_entries_unique(gsv, gi as int);
        }
        let code = g.lang_code as usize;
        let ts = texts.get_at(code);
        proof {
            assert(tv[code as int] == bytes_views(ts@));
            assert(tv[code as int].len() == lang_entries(gsv, code as int).len());
            assert(lang_entries(gsv, code as int) == gsv[gi as int].entries);
            assert(gsv[gi as int].entries == entry_views(g.strings_data@));
        }
        let mut entries: Vec<CutsceneStringData> = Vec::new();
        let mut k: usize = 0;
        while k < g.strings_data.len()
            invariant
                gi < cut.groups@.len(),
                k <= g.strings_data@.len(),
                texts.wf(),
                tv == list_views(texts@),
                gsv == cut@.groups,
                rgs == spec_replace_groups(gsv, tv),
                gsv[gi as int] == g@,
                g@.code < 21,
                code == g@.code,
                tv[code as int] == bytes_views(ts@),
                ts@.len() == g.strings_data@.len(),
                forall|a: int, b: int|
                    0 <= a < tv.len() && 0 <= b < tv[a].len() ==> valid_utf8(
                        #[trigger] tv[a][b],
                    ),
                find_long_units(tv[code as int], 0) is None,
                entries@.len() == k,
                forall|j: int|
                    0 <= j < k ==> (#[trigger] entry_views(entries@)[j]) == rgs[gi as int].entries[j],
            decreases g.strings_data@.len() - k,
        {
            proof {
                assert(tv[code as int][k as int] == ts@[k as int]@);
                lemma_find_long_units_none(tv[code as int], k as int);
            }
            match U16String::from_text_bytes(&ts[k]) {
                Some(u) => {
                    let e = CutsceneStringData { string: u, timing: g.strings_data[k].timing };
                    let ghost pre = entries@;
                    entries.push(e);
                    proof {
                        assert(rgs[gi as int] == spec_replace_groups(gsv, tv)[gi as int]);
                        assert(rgs[gi as int].entries[k as int] == EntryModel {
                            units: conv_units(tv[g@.code as int][k as int]),
                            timing: gsv[gi as int].entries[k as int].timing,
                        });
                        assert(gsv[gi as int].entries[k as int]
                            == entry_views(g.strings_data@)[k as int]);
                        assert forall|j: int| 0 <= j < k + 1 implies (#[trigger] entry_views(
                            entries@,
                        )[j]) == rgs[gi as int].entries[j] by {
                            assert(entry_views(entries@)[j] == entries@[j]@);
                            if j < k {
                                assert(entries@[j] == pre[j]);
                                assert(entry_views(pre)[j] == pre[j]@);
                            } else {
                                assert(entries@[j] == e);
                            }
                        }
                    }
                    k = k + 1;
                },
                None => {
                    proof {
                        assert(false);
                    }
                    return Err(HZDError::StringTooLong { got: 0, max: 0 });
                },
            }
        }
        let ng = CutsceneStringGroup { lang_code: g.lang_code, strings_data: entries };
        let ghost prev = group_views(newgroups@);
        newgroups.push(ng);
        proof {
            assert(entry_views(ng.strings_data@) =~= rgs[gi as int].entries);
            assert(ng@ == rgs[gi as int]);
            assert(group_views(newgroups@) =~= prev + seq![ng@]);
        }
        gi = gi + 1;
    }
    let uuid = take_bytes(&cut.uuid, 0, cut.uuid.len());
    let block = take_bytes(&cut.useless_block, 0, cut.useless_block.len());
    let unk = take_bytes(&cut.unk, 0, cut.unk.len());
    let cand = Cutscene { uuid, useless_block: block, groups: newgroups, unk };
    proof {
        assert(group_views(cand.groups@) =~= rgs);
        assert(cand@.uuid =~= cut@.uuid);
        assert(cand@.block =~= cut@.block);
        assert(cand@.tail =~= cut@.tail);
        assert(wf_cutscene(cand@)) by {
            assert(forall|j: int|
                0 <= j < rgs.len() ==> (#[trigger] rgs[j]).code == gsv[j].code);
            assert(forall|j: int|
                0 <= j < rgs.len() ==> (#[trigger] rgs[j]).entries.len() == gsv[j].entries.len());
            assert forall|j: int, k2: int|
                0 <= j < rgs.len() && 0 <= k2 < rgs[j].entries.len() implies crate::hzd::structures::wf_entry(
                #[trigger] rgs[j].entries[k2],
            ) by {
                assert(rgs[j].entries[k2].units == conv_units(tv[gsv[j].code as int][k2]));
                assert(tv[gsv[j].code as int].len() == lang_entries(gsv, gsv[j].code as int).len());
                lemma_lang_entries_unique(gsv, j);
                lemma_find_long_units_none(tv[gsv[j].code as int], k2);
                crate::utf16::lemma_utf16_encode_valid(decode_utf8(tv[gsv[j].code as int][k2]));
            }
        }
    }
    let variant = ChunkVariants::Cutscene(cand);
    let bytes = encode_variant(&variant);
    if bytes.len() > 0xffff_ffff {
        return Err(HZDError::ResourceTooBig { got: bytes.len() });
    }
    Ok(variant)
}


impl HZDLocal {
    /// Copies every localization resource out of the container, each
    /// with the index of the chunk it came from.
    pub fn get_locals(&self) -> (r: Vec<LocalResource>)
        requires
            self.wf(),
        ensures
            locals_views(r@) == spec_get_locals(self@, 0),
            forall|j: int| 0 <= j < r@.len() ==> local_wf(#[trigger] r@[j]),
    {
        let mut out: Vec<LocalResource> = Vec::new();
        let mut i: usize = 0;
        proof {
            assert(locals_views(out@) =~= Seq::<LocalResourceModel>::empty());
            assert(Seq::<LocalResourceModel>::empty() + spec_get_locals(self@, 0)
                =~= spec_get_locals(self@, 0));
        }
        while i < self.chunks.len()
            invariant
                i <= self.chunks@.len(),
                self.wf(),
                spec_get_locals(self@, 0) == locals_views(out@) + spec_get_locals(
                    self@,
                    i as int,
                ),
                forall|j: int| 0 <= j < out@.len() ==> local_wf(#[trigger] out@[j]),
            decreases self.chunks@.len() - i,
        {
            proof {
                assert(self@[i as int] == self.chunks@[i as int]@);
            }
            match &self.chunks[i].variant {
                ChunkVariants::Localized(loc) => {
                    let texts = localized_texts(loc);
                    let lr = LocalResource {
                        index: i,
                        variant: LocalVariants::Localized(texts),
                    };
                    let ghost prev = locals_views(out@);
                    out.push(lr);
                    proof {
                        assert(locals_views(out@) =~= prev + seq![lr@]);
                        assert(lr@ == local_of_chunk(self@[i as int], i as int)->Some_0);
                        assert(prev + (seq![lr@] + spec_get_locals(self@, i + 1)) =~= (prev
                            + seq![lr@]) + spec_get_locals(self@, i + 1));
                    }
                },
                ChunkVariants::Cutscene(cut) => {
                    let texts = cutscene_texts_exec(cut);
                    let lr = LocalResource {
                        index: i,
                        variant: LocalVariants::Cutscene(texts),
                    };
                    let ghost prev = locals_views(out@);
                    out.push(lr);
                    proof {
                        assert(locals_views(out@) =~= prev + seq![lr@]);
                        assert(lr@ == local_of_chunk(self@[i as int], i as int)->Some_0);
                        assert(prev + (seq![lr@] + spec_get_locals(self@, i + 1)) =~= (prev
                            + seq![lr@]) + spec_get_locals(self@, i + 1));
                    }
                },
                ChunkVariants::Others { .. } => {
                },
            }
            i = i + 1;
        }
        proof {
            assert(spec_get_locals(self@, i as int) =~= Seq::<LocalResourceModel>::empty());
            assert(locals_views(out@) + Seq::<LocalResourceModel>::empty() =~= locals_views(
                out@,
            ));
        }
        out
    }

    /// Applies edited resources back onto their chunks, in order; the
    /// first failing resource stops the batch, leaving the resources
    /// before it applied and the failing one untouched.
    pub fn update_locals(&mut self, locals: Vec<LocalResource>) -> (r: Result<(), HZDError>)
        requires
            old(self).wf(),
            forall|i: int| 0 <= i < locals@.len() ==> local_wf(#[trigger] locals@[i]),
            forall|i: int| 0 <= i < locals@.len() ==> local_input_ok((#[trigger] locals@[i])@),
        ensures
            final(self).wf(),
            match r {
                Ok(_) => spec_update_locals(old(self)@, locals_views(locals@)) == Ok::<
                    _,
                    HZDError,
                >(final(self)@),
                Err(e) => spec_update_locals(old(self)@, locals_views(locals@)) == Err::<
                    Seq<ChunkModel>,
                    _,
                >(e) && exists|k: int|
                    0 <= k <= locals@.len() && spec_update_locals(
                        old(self)@,
                        locals_views(locals@).subrange(0, k),
                    ) == Ok::<_, HZDError>(final(self)@),
            },
    {
        let ghost lsv = locals_views(locals@);
        let ghost cs0 = old(self)@;
        let mut j: usize = 0;
        proof {
            assert(lsv.skip(0) =~= lsv);
            assert(lsv.subrange(0, 0) =~= Seq::<LocalResourceModel>::empty());
        }
        while j < locals.len()
            invariant
                j <= locals@.len(),
                lsv == locals_views(locals@),
                cs0 == old(self)@,
                forall|i: int| 0 <= i < locals@.len() ==> local_wf(#[trigger] locals@[i]),
                forall|i: int|
                    0 <= i < locals@.len() ==> local_input_ok((#[trigger] locals@[i])@),
                wf_chunks(chunks_views(self.chunks@)),
                spec_update_locals(cs0, lsv) == spec_update_locals(
                    chunks_views(self.chunks@),
                    lsv.skip(j as int),
                ),
                spec_update_locals(cs0, lsv.subrange(0, j as int)) == Ok::<_, HZDError>(
                    chunks_views(self.chunks@),
                ),
            decreases locals@.len() - j,
        {
            let ghost cur = chunks_views(self.chunks@);
            proof {
                assert(lsv[j as int] == locals@[j as int]@);
                assert(lsv.skip(j as int)[0] == lsv[j as int]);
                assert(lsv.skip(j as int).skip(1) =~= lsv.skip(j + 1));
            }
            let lr = &locals[j];
            let idx = lr.index;
            if idx >= self.chunks.len() {
                proof {
                    assert(0 <= j as int <= lsv.len() && spec_update_locals(
                        cs0,
                        lsv.subrange(0, j as int),
                    ) == Ok::<_, HZDError>(chunks_views(self.chunks@)));
                }
                return Err(
                    HZDError::InvalidLocalResourceIdx { max: self.chunks.len(), got: idx },
                );
            }
            proof {
                assert(cur[idx as int] == self.chunks@[idx as int]@);
            }
            let magic = self.chunks[idx].magic;
            let applied: Result<ChunkVariants, HZDError> = match (
                &lr.variant,
                &self.chunks[idx].variant,
            ) {
                (LocalVariants::Localized(texts), ChunkVariants::Localized(loc)) => apply_localized(
                    loc,
                    texts,
                ),
                (LocalVariants::Cutscene(texts), ChunkVariants::Cutscene(cut)) => apply_cutscene(
                    cut,
                    texts,
                ),
                (lv, cv) => {
                    let input = match lv {
                        LocalVariants::Localized(_) => ResourceKind::Localized,
                        LocalVariants::Cutscene(_) => ResourceKind::Cutscene,
                    };
                    let original = match cv {
                        ChunkVariants::Localized(_) => ResourceKind::Localized,
                        ChunkVariants::Cutscene(_) => ResourceKind::Cutscene,
                        ChunkVariants::Others { .. } => ResourceKind::Others,
                    };
                    proof {
                        assert(0 <= j as int <= lsv.len() && spec_update_locals(
                            cs0,
                            lsv.subrange(0, j as int),
                        ) == Ok::<_, HZDError>(chunks_views(self.chunks@)));
                    }
                    return Err(HZDError::ResourceNotMatchAtIdx { input, original });
                },
            };
            match applied {
                Err(e) => {
                    proof {
                        assert(0 <= j as int <= lsv.len() && spec_update_locals(
                            cs0,
                            lsv.subrange(0, j as int),
                        ) == Ok::<_, HZDError>(chunks_views(self.chunks@)));
                    }
                    return Err(e);
                },
                Ok(newvariant) => {
                    let c = Chunk { magic, variant: newvariant };
                    let ghost cm = c@;
                    self.chunks.set(idx, c);
                    proof {
                        assert(chunks_views(self.chunks@) =~= cur.update(idx as int, cm));
                        assert(spec_apply_local(cur, lsv[j as int]) == Ok::<_, HZDError>(
                            chunks_views(self.chunks@),
                        ));
                        lemma_update_snoc(cs0, lsv.subrange(0, j as int), lsv[j as int]);
                        assert(lsv.subrange(0, j + 1) =~= lsv.subrange(0, j as int).push(
                            lsv[j as int],
                        ));
                        assert forall|q: int|
                            0 <= q < chunks_views(self.chunks@).len() implies wf_chunk(
                            #[trigger] chunks_views(self.chunks@)[q],
                        ) by {
                            if q != idx {
                                assert(chunks_views(self.chunks@)[q] == cur[q]);
                            } else {
                                assert(chunks_views(self.chunks@)[q] == cm);
                                assert(wf_chunk(ChunkModel { magic: 0, variant: cm.variant }));
                            }
                        }
                    }
                    j = j + 1;
                },
            }
        }
        proof {
            assert(lsv.skip(j as int) =~= Seq::<LocalResourceModel>::empty());
            assert(lsv.subrange(0, j as int) =~= lsv);
        }
        Ok(())
    }
}

} // verus!
