//! Structured-document and line-list serialization for this title.

use crate::ds::error::DSError;
use crate::ds::local::{
    bytes_views, localized_texts_exec, locals_views, spec_get_locals, spec_update_locals, DSLocal,
    LocalResourceModel,
};
use crate::ds::structures::{ChunkModel, ChunkVariants, VariantModel};
use crate::ds::{LangMap, Language};
use crate::error::ResourceKind;
use crate::fixed_map::EnumKey;
use crate::wire::take_bytes;
use vstd::prelude::*;
use vstd::utf8::valid_utf8;

verus! {

// ------------------------------------------------------- document form

/// One document entry: the source chunk index and the selected
/// languages' text, in ascending language order.
pub struct LocalResource {
    pub index: usize,
    pub strings: Vec<(Language, Vec<u8>)>,
}

/// A document entry, as a mathematical value.
pub ghost struct SerdeLocalModel {
    pub index: int,
    pub strings: Seq<(Language, Seq<u8>)>,
}

/// The views of a list of per-language text pairs.
pub open spec fn pair_views(ps: Seq<(Language, Vec<u8>)>) -> Seq<(Language, Seq<u8>)> {
    ps.map_values(|p: (Language, Vec<u8>)| (p.0, p.1@))
}

impl View for LocalResource {
    type V = SerdeLocalModel;

    open spec fn view(&self) -> SerdeLocalModel {
        SerdeLocalModel { index: self.index as int, strings: pair_views(self.strings@) }
    }
}

/// The models of a list of document entries.
pub open spec fn serde_views(ds: Seq<LocalResource>) -> Seq<SerdeLocalModel> {
    ds.map_values(|d: LocalResource| d@)
}

/// True when a language with code `l` is among `langs`.
pub open spec fn selected(langs: Seq<Language>, l: int) -> bool {
    exists|i: int| 0 <= i < langs.len() && (#[trigger] langs[i]).spec_code() == l
}

/// The document pairs for one resource, from language code `l` up.
pub open spec fn doc_pairs(strings: Seq<Seq<u8>>, langs: Seq<Language>, l: int) -> Seq<
    (Language, Seq<u8>),
>
    decreases 25 - l,
    when 0 <= l <= 25
{
    if l >= 25 {
        Seq::empty()
    } else if selected(langs, l) {
        seq![(Language::spec_from_code(l), strings[l])] + doc_pairs(strings, langs, l + 1)
    } else {
        doc_pairs(strings, langs, l + 1)
    }
}

/// The document entry of one extracted resource.
pub open spec fn spec_doc_of_local(l: LocalResourceModel, langs: Seq<Language>) -> SerdeLocalModel {
    SerdeLocalModel { index: l.index, strings: doc_pairs(l.strings, langs, 0) }
}

/// The whole document of a container's resources.
pub open spec fn spec_serialize(ls: Seq<LocalResourceModel>, langs: Seq<Language>) -> Seq<
    SerdeLocalModel,
> {
    ls.map_values(|l: LocalResourceModel| spec_doc_of_local(l, langs))
}

/// Decides whether a language with code `l` is among `languages`.
pub fn lang_selected(languages: &Vec<Language>, l: usize) -> (r: bool)
    ensures
        r == selected(languages@, l as int),
{
    let mut i: usize = 0;
    while i < languages.len()
        invariant
            i <= languages@.len(),
            forall|j: int| 0 <= j < i ==> (#[trigger] languages@[j]).spec_code() != l,
        decreases languages@.len() - i,
    {
        if languages[i].code() == l {
            return true;
        }
        i = i + 1;
    }
    false
}

/// Builds the document pairs of one resource.
fn doc_pairs_exec(texts: &LangMap<Vec<u8>>, languages: &Vec<Language>) -> (r: Vec<
    (Language, Vec<u8>),
>)
    requires
        texts.wf(),
    ensures
        pair_views(r@) == doc_pairs(bytes_views(texts@), languages@, 0),
{
    let ghost sv = bytes_views(texts@);
    let mut out: Vec<(Language, Vec<u8>)> = Vec::new();
    let mut l: usize = 0;
    proof {
        assert(pair_views(out@) =~= Seq::<(Language, Seq<u8>)>::empty());
        assert(Seq::<(Language, Seq<u8>)>::empty() + doc_pairs(sv, languages@, 0) =~= doc_pairs(
            sv,
            languages@,
            0,
        ));
    }
    while l < 25
        invariant
            l <= 25,
            texts.wf(),
            sv == bytes_views(texts@),
            doc_pairs(sv, languages@, 0) == pair_views(out@) + doc_pairs(
                sv,
                languages@,
                l as int,
            ),
        decreases 25 - l,
    {
        if lang_selected(languages, l) {
            let lang = Language::from_code(l);
            proof {
                crate::ds::lemma_from_code_matches_spec(l as int);
                crate::ds::lemma_lang_code_injective(lang, Language::spec_from_code(l as int));
            }
            let t = texts.get_at(l);
            let copy = take_bytes(t, 0, t.len());
            let ghost prev = pair_views(out@);
            out.push((lang, copy));
            proof {
                assert(sv[l as int] == texts@[l as int]@);
                assert(pair_views(out@) =~= prev + seq![(lang, copy@)]);
                assert(doc_pairs(sv, languages@, l as int) == seq![(lang, sv[l as int])]
                    + doc_pairs(sv, languages@, l + 1));
                assert((lang, copy@) == (lang, sv[l as int]));
                assert(prev + (seq![(lang, copy@)] + doc_pairs(sv, languages@, l + 1)) =~= (prev
                    + seq![(lang, copy@)]) + doc_pairs(sv, languages@, l + 1));
            }
        } else {
            proof {
                assert(doc_pairs(sv, languages@, l as int) == doc_pairs(sv, languages@, l + 1));
            }
        }
        l = l + 1;
    }
    proof {
        assert(pair_views(out@) + Seq::<(Language, Seq<u8>)>::empty() =~= pair_views(out@));
    }
    out
}

/// Applies document pairs onto a per-language string table, later pairs
/// winning.
pub open spec fn apply_pairs(strings: Seq<Seq<u8>>, pairs: Seq<(Language, Seq<u8>)>) -> Seq<
    Seq<u8>,
>
    decreases pairs.len(),
{
    if pairs.len() == 0 {
        strings
    } else {
        apply_pairs(strings.update(pairs[0].0.spec_code(), pairs[0].1), pairs.skip(1))
    }
}

/// The resource updates a document stands for.  The first entry naming a
/// bad index or a chunk of the wrong kind is the failure.
pub open spec fn spec_import_doc(cs: Seq<ChunkModel>, ds: Seq<SerdeLocalModel>) -> Result<
    Seq<LocalResourceModel>,
    DSError,
>
    decreases ds.len(),
{
    if ds.len() == 0 {
        Ok(Seq::empty())
    } else {
        let d = ds[0];
        if d.index < 0 || d.index >= cs.len() {
            Err(DSError::InvalidLocalResourceIdx { max: cs.len() as usize, got: d.index as usize })
        } else {
            match cs[d.index].variant {
                VariantModel::Localized(m) => {
                    let l = LocalResourceModel {
                        index: d.index,
                        strings: apply_pairs(
                            crate::ds::local::localized_texts(m),
                            d.strings,
                        ),
                    };
                    match spec_import_doc(cs, ds.skip(1)) {
                        Err(e) => Err(e),
                        Ok(rest) => Ok(seq![l] + rest),
                    }
                },
                VariantModel::Others(_) => Err(
                    DSError::ResourceNotMatchAtIdx {
                        input: ResourceKind::Localized,
                        original: ResourceKind::Others,
                    },
                ),
            }
        }
    }
}

/// Overlays document pairs onto a copied string table.
fn overlay_pairs(base: LangMap<Vec<u8>>, pairs: &Vec<(Language, Vec<u8>)>) -> (r: LangMap<Vec<u8>>)
    requires
        base.wf(),
    ensures
        r.wf(),
        bytes_views(r@) == apply_pairs(bytes_views(base@), pair_views(pairs@)),
{
    let ghost b0 = bytes_views(base@);
    let ghost pv = pair_views(pairs@);
    let mut cur = base;
    let mut i: usize = 0;
    proof {
        assert(pv.skip(0) =~= pv);
    }
    while i < pairs.len()
        invariant
            i <= pairs@.len(),
            pv == pair_views(pairs@),
            cur.wf(),
            apply_pairs(b0, pv) == apply_pairs(bytes_views(cur@), pv.skip(i as int)),
        decreases pairs@.len() - i,
    {
        proof {
            assert(pv.skip(i as int)[0] == pv[i as int]);
            assert(pv.skip(i as int).skip(1) =~= pv.skip(i + 1));
            assert(pv[i as int] == (pairs@[i as int].0, pairs@[i as int].1@));
        }
        let p = &pairs[i];
        let c = p.0.code();
        let copy = take_bytes(&p.1, 0, p.1.len());
        let ghost pre = bytes_views(cur@);
        cur.set_at(c, copy);
        proof {
            assert(bytes_views(cur@) =~= pre.update(c as int, copy@));
            assert(copy@ == pv[i as int].1);
            assert(c as int == pv[i as int].0.spec_code());
            assert(apply_pairs(pre, pv.skip(i as int)) == apply_pairs(
                pre.update(pv[i as int].0.spec_code(), pv[i as int].1),
                pv.skip(i + 1),
            ));
            assert(pre.update(pv[i as int].0.spec_code(), pv[i as int].1) == bytes_views(cur@));
        }
        i = i + 1;
    }
    proof {
        assert(pv.skip(i as int) =~= Seq::<(Language, Seq<u8>)>::empty());
    }
    cur
}

impl DSLocal {
    /// Serializes the selected languages of every resource to an
    /// in-memory document.
    pub fn internal_serialize(&self, languages: &Vec<Language>) -> (r: Vec<LocalResource>)
        requires
            self.wf(),
        ensures
            serde_views(r@) == spec_serialize(spec_get_locals(self@, 0), languages@),
    {
        let locals = self.get_locals();
        let ghost lv = locals_views(locals@);
        let mut out: Vec<LocalResource> = Vec::new();
        let mut i: usize = 0;
        while i < locals.len()
            invariant
                i <= locals@.len(),
                lv == locals_views(locals@),
                forall|j: int|
                    0 <= j < locals@.len() ==> crate::ds::local::local_wf(
                        #[trigger] locals@[j],
                    ),
                out@.len() == i,
                forall|j: int|
                    0 <= j < i ==> (#[trigger] serde_views(out@)[j]) == spec_doc_of_local(
                        lv[j],
                        languages@,
                    ),
            decreases locals@.len() - i,
        {
            let lr = &locals[i];
            proof {
                assert(lv[i as int] == locals@[i as int]@);
            }
            let pairs = doc_pairs_exec(&lr.strings, languages);
            let entry = LocalResource { index: lr.index, strings: pairs };
            let ghost pre = out@;
            out.push(entry);
            proof {
                assert forall|j: int| 0 <= j < i + 1 implies (#[trigger] serde_views(out@)[j])
                    == spec_doc_of_local(lv[j], languages@) by {
                    assert(serde_views(out@)[j] == out@[j]@);
                    if j < i {
                        assert(out@[j] == pre[j]);
                        assert(serde_views(pre)[j] == pre[j]@);
                    } else {
                        assert(out@[j] == entry);
                    }
                }
            }
            i = i + 1;
        }
        proof {
            assert(serde_views(out@) =~= spec_serialize(spec_get_locals(self@, 0), languages@));
        }
        out
    }

    /// Applies a document back onto the container: each entry's selected
    /// languages replace the chunk's current text, other languages stay.
    pub fn internal_deserialize_and_update(&mut self, data: Vec<LocalResource>) -> (r: Result<
        (),
        DSError,
    >)
        requires
            old(self).wf(),
        ensures
            final(self).wf(),
            match spec_import_doc(old(self)@, serde_views(data@)) {
                Err(e0) => r == Err::<(), DSError>(e0) && final(self)@ == old(self)@,
                Ok(ls) => match r {
                    Ok(_) => spec_update_locals(old(self)@, ls) == Ok::<_, DSError>(
                        final(self)@,
                    ),
                    Err(e) => spec_update_locals(old(self)@, ls) == Err::<Seq<ChunkModel>, _>(e),
                },
            },
    {
        let ghost dv = serde_views(data@);
        let ghost cs = old(self)@;
        let mut locals: Vec<crate::ds::local::LocalResource> = Vec::new();
        let mut i: usize = 0;
        proof {
            assert(dv.skip(0) =~= dv);
            if spec_import_doc(cs, dv) is Ok {
                let rest = spec_import_doc(cs, dv)->Ok_0;
                assert(Seq::<LocalResourceModel>::empty() + rest =~= rest);
            }
        }
        while i < data.len()
            invariant
                i <= data@.len(),
                dv == serde_views(data@),
                cs == old(self)@,
                self@ == old(self)@,
                self.wf(),
                locals@.len() == i,
                forall|j: int|
                    0 <= j < i ==> crate::ds::local::local_wf(#[trigger] locals@[j]),
                match spec_import_doc(cs, dv.skip(i as int)) {
                    Ok(rest) => spec_import_doc(cs, dv) == Ok::<_, DSError>(
                        locals_views(locals@) + rest,
                    ),
                    Err(e) => spec_import_doc(cs, dv) == Err::<Seq<LocalResourceModel>, _>(e),
                },
            decreases data@.len() - i,
        {
            proof {
                assert(dv.skip(i as int)[0] == dv[i as int]);
                assert(dv.skip(i as int).skip(1) =~= dv.skip(i + 1));
                assert(dv[i as int] == data@[i as int]@);
            }
            let d = &data[i];
            let idx = d.index;
            if idx >= self.chunks.len() {
                return Err(
                    DSError::InvalidLocalResourceIdx { max: self.chunks.len(), got: idx },
                );
            }
            proof {
                assert(cs[idx as int] == self.chunks@[idx as int]@);
                assert(crate::ds::structures::wf_chunk(cs[idx as int]));
            }
            let built: crate::ds::local::LocalResource = match &self.chunks[idx].variant {
                ChunkVariants::Localized(loc) => {
                    let base = localized_texts_exec(loc);
                    let overlaid = overlay_pairs(base, &d.strings);
                    crate::ds::local::LocalResource { index: idx, strings: overlaid }
                },
                ChunkVariants::Others { .. } => {
                    return Err(
                        DSError::ResourceNotMatchAtIdx {
                            input: ResourceKind::Localized,
                            original: ResourceKind::Others,
                        },
                    );
                },
            };
            let ghost prev = locals_views(locals@);
            locals.push(built);
            proof {
                assert(locals_views(locals@) =~= prev + seq![built@]);
                if spec_import_doc(cs, dv.skip(i + 1)) is Ok {
                    let rest = spec_import_doc(cs, dv.skip(i + 1))->Ok_0;
                    assert(prev + (seq![built@] + rest) =~= (prev + seq![built@]) + rest);
                }
            }
            i = i + 1;
        }
        proof {
            assert(dv.skip(i as int) =~= Seq::<SerdeLocalModel>::empty());
            assert(locals_views(locals@) + Seq::<LocalResourceModel>::empty() =~= locals_views(
                locals@,
            ));
        }
        self.update_locals(locals)
    }
}


// ------------------------------------------------------- line-list form

/// One envelope entry: a chunk index and the contiguous line range its
/// strings occupy.
#[derive(Clone, Copy, Debug, PartialEq, Eq, Structural)]
pub struct TxtLocalInfo {
    pub index: usize,
    pub start: usize,
    pub end: usize,
}

/// The reconstruction envelope of a line-list export.
pub struct TxtDeInfo {
    pub languages: Vec<Language>,
    pub add_language_names: bool,
    pub count: usize,
    pub info: Vec<TxtLocalInfo>,
}

/// The envelope, as a mathematical value.
pub ghost struct TxtDeInfoModel {
    pub languages: Seq<Language>,
    pub add_language_names: bool,
    pub count: int,
    pub info: Seq<TxtLocalInfo>,
}

impl View for TxtDeInfo {
    type V = TxtDeInfoModel;

    open spec fn view(&self) -> TxtDeInfoModel {
        TxtDeInfoModel {
            languages: self.languages@,
            add_language_names: self.add_language_names,
            count: self.count as int,
            info: self.info@,
        }
    }
}

/// The selected languages in ascending code order, from code `l` up.
pub open spec fn sorted_langs(langs: Seq<Language>, l: int) -> Seq<Language>
    decreases 25 - l,
    when 0 <= l <= 25
{
    if l >= 25 {
        Seq::empty()
    } else if selected(langs, l) {
        seq![Language::spec_from_code(l)] + sorted_langs(langs, l + 1)
    } else {
        sorted_langs(langs, l + 1)
    }
}

/// The `"<Language>:: "` prefix bytes of a line.
pub open spec fn prefix_bytes(lang: Language) -> Seq<u8> {
    vstd::utf8::encode_utf8(lang.spec_name()) + vstd::utf8::encode_utf8(":: "@)
}

/// One physical line: the text, prefixed with its language name when
/// name embedding is on.
pub open spec fn spec_line(add: bool, lang: Language, t: Seq<u8>) -> Seq<u8> {
    if add {
        prefix_bytes(lang) + t
    } else {
        t
    }
}

/// The lines of one resource, one per selected language.
pub open spec fn loc_lines(ss: Seq<Seq<u8>>, langs: Seq<Language>, add: bool) -> Seq<Seq<u8>> {
    langs.map_values(|lang: Language| spec_line(add, lang, ss[lang.spec_code()]))
}

/// Every line of an export, resource by resource.
pub open spec fn all_lines(ls: Seq<LocalResourceModel>, langs: Seq<Language>, add: bool) -> Seq<
    Seq<u8>,
>
    decreases ls.len(),
{
    if ls.len() == 0 {
        Seq::empty()
    } else {
        loc_lines(ls[0].strings, langs, add) + all_lines(ls.skip(1), langs, add)
    }
}

/// The envelope entries of an export, with `c` lines already written.
pub open spec fn infos_of(
    ls: Seq<LocalResourceModel>,
    langs: Seq<Language>,
    c: int,
) -> Seq<TxtLocalInfo>
    decreases ls.len(),
{
    if ls.len() == 0 {
        Seq::empty()
    } else {
        let n = langs.len() as int;
        seq![
            TxtLocalInfo { index: ls[0].index as usize, start: c as usize, end: (c + n) as usize },
        ] + infos_of(ls.skip(1), langs, c + n)
    }
}

/// Builds one physical line.
fn make_line(add: bool, lang: Language, t: &Vec<u8>) -> (r: Vec<u8>)
    ensures
        r@ == spec_line(add, lang, t@),
{
    let mut out: Vec<u8> = Vec::new();
    if add {
        let name = lang.name();
        let mut nb = vstd::slice::slice_to_vec(name.as_bytes());
        out.append(&mut nb);
        let mut sep = vstd::slice::slice_to_vec(":: ".as_bytes());
        out.append(&mut sep);
    }
    crate::wire::copy_bytes(&mut out, t, 0, t.len());
    proof {
        assert(t@.subrange(0, t@.len() as int) =~= t@);
        assert(out@ =~= spec_line(add, lang, t@));
    }
    out
}

/// The selected languages, ascending.
fn sorted_langs_exec(languages: &Vec<Language>) -> (r: Vec<Language>)
    ensures
        r@ == sorted_langs(languages@, 0),
        forall|j: int| 0 <= j < r@.len() ==> (#[trigger] r@[j]).spec_code() < 25,
{
    let mut out: Vec<Language> = Vec::new();
    let mut l: usize = 0;
    proof {
        assert(Seq::<Language>::empty() + sorted_langs(languages@, 0) =~= sorted_langs(
            languages@,
            0,
        ));
    }
    while l < 25
        invariant
            l <= 25,
            sorted_langs(languages@, 0) == out@ + sorted_langs(languages@, l as int),
            forall|j: int| 0 <= j < out@.len() ==> (#[trigger] out@[j]).spec_code() < 25,
        decreases 25 - l,
    {
        if lang_selected(languages, l) {
            let lang = Language::from_code(l);
            proof {
                crate::ds::lemma_from_code_matches_spec(l as int);
                crate::ds::lemma_lang_code_injective(lang, Language::spec_from_code(l as int));
                assert(out@ + (seq![lang] + sorted_langs(languages@, l + 1)) =~= (out@
                    + seq![lang]) + sorted_langs(languages@, l + 1));
            }
            out.push(lang);
        } else {
            proof {
                assert(sorted_langs(languages@, l as int) == sorted_langs(languages@, l + 1));
            }
        }
        l = l + 1;
    }
    proof {
        assert(out@ + Seq::<Language>::empty() =~= out@);
    }
    out
}

/// Strips the language-name prefix from an imported line, tolerating its
/// absence.
pub open spec fn spec_strip(add: bool, lang: Language, line: Seq<u8>) -> Seq<u8> {
    let p = prefix_bytes(lang);
    if add && line.len() >= p.len() && line.subrange(0, p.len() as int) == p && valid_utf8(
        line.skip(p.len() as int),
    ) {
        line.skip(p.len() as int)
    } else {
        line
    }
}

/// Writes each language's line of a segment onto the string table, in
/// language order; a short segment updates only as many languages.
pub open spec fn overlay_lines(
    ss: Seq<Seq<u8>>,
    langs: Seq<Language>,
    add: bool,
    seg: Seq<Seq<u8>>,
) -> Seq<Seq<u8>>
    decreases langs.len(),
{
    if langs.len() == 0 || seg.len() == 0 {
        ss
    } else {
        overlay_lines(
            ss.update(langs[0].spec_code(), spec_strip(add, langs[0], seg[0])),
            langs.skip(1),
            add,
            seg.skip(1),
        )
    }
}

/// The resource updates a line-list import stands for, from envelope
/// entry `i` on.
pub open spec fn spec_lines_locals(
    cs: Seq<ChunkModel>,
    lines: Seq<Seq<u8>>,
    de: TxtDeInfoModel,
    i: int,
) -> Result<Seq<LocalResourceModel>, DSError>
    decreases de.info.len() - i,
    when 0 <= i <= de.info.len()
{
    if i >= de.info.len() {
        Ok(Seq::empty())
    } else {
        let inf = de.info[i];
        if inf.index >= cs.len() {
            Err(DSError::InvalidLocalResourceIdx { max: cs.len() as usize, got: inf.index })
        } else if !(inf.start <= inf.end && inf.end <= lines.len()) {
            Err(DSError::InvalidIndex { max: lines.len() as usize, invalid_index: inf.index })
        } else {
            match cs[inf.index as int].variant {
                VariantModel::Localized(m) => {
                    let l = LocalResourceModel {
                        index: inf.index as int,
                        strings: overlay_lines(
                            crate::ds::local::localized_texts(m),
                            de.languages,
                            de.add_language_names,
                            lines.subrange(inf.start as int, inf.end as int),
                        ),
                    };
                    match spec_lines_locals(cs, lines, de, i + 1) {
                        Err(e) => Err(e),
                        Ok(rest) => Ok(seq![l] + rest),
                    }
                },
                VariantModel::Others(_) => Err(
                    DSError::ResourceNotMatchAtIdx {
                        input: ResourceKind::Localized,
                        original: ResourceKind::Others,
                    },
                ),
            }
        }
    }
}

/// The whole line-list import: the literal line count must equal the
/// envelope's recorded count, or it fails before anything is touched.
pub open spec fn spec_import_lines(
    cs: Seq<ChunkModel>,
    lines: Seq<Seq<u8>>,
    de: TxtDeInfoModel,
) -> Result<Seq<LocalResourceModel>, DSError> {
    if lines.len() != de.count {
        Err(
            DSError::LineCountDoesntMatchWithInput {
                expected: de.count as usize,
                got: lines.len() as usize,
            },
        )
    } else {
        spec_lines_locals(cs, lines, de, 0)
    }
}

/// Strips the language-name prefix from one line.
fn strip_line(add: bool, lang: Language, line: &Vec<u8>) -> (r: Vec<u8>)
    ensures
        r@ == spec_strip(add, lang, line@),
{
    let copy_whole = take_bytes(line, 0, line.len());
    proof {
        assert(copy_whole@ =~= line@);
    }
    if !add {
        return copy_whole;
    }
    let name = lang.name();
    let mut pvec = vstd::slice::slice_to_vec(name.as_bytes());
    let mut sep = vstd::slice::slice_to_vec(":: ".as_bytes());
    pvec.append(&mut sep);
    proof {
        assert(pvec@ =~= prefix_bytes(lang));
    }
    let plen = pvec.len();
    if line.len() >= plen {
        let head = take_bytes(line, 0, plen);
        if crate::wire::vec_u8_eq(&head, &pvec) {
            let rest = take_bytes(line, plen, line.len() - plen);
            proof {
                assert(rest@ =~= line@.skip(plen as int));
            }
            if crate::utf16::utf8_check(&rest) {
                return rest;
            }
        }
    }
    copy_whole
}

/// Overlays a line segment onto a copied string table, one line per
/// language in order.
fn overlay_lines_exec(
    base: LangMap<Vec<u8>>,
    langs: &Vec<Language>,
    add: bool,
    lines: &Vec<Vec<u8>>,
    start: usize,
    end: usize,
) -> (r: LangMap<Vec<u8>>)
    requires
        base.wf(),
        start <= end <= lines@.len(),
    ensures
        r.wf(),
        bytes_views(r@) == overlay_lines(
            bytes_views(base@),
            langs@,
            add,
            bytes_views(lines@).subrange(start as int, end as int),
        ),
{
    let ghost b0 = bytes_views(base@);
    let ghost seg = bytes_views(lines@).subrange(start as int, end as int);
    let mut cur = base;
    let mut k: usize = 0;
    proof {
        assert(langs@.skip(0) =~= langs@);
        assert(seg.skip(0) =~= seg);
    }
    while k < langs.len() && start + k < end
        invariant
            k <= langs@.len(),
            start + k <= end <= lines@.len(),
            seg == bytes_views(lines@).subrange(start as int, end as int),
            cur.wf(),
            overlay_lines(b0, langs@, add, seg) == overlay_lines(
                bytes_views(cur@),
                langs@.skip(k as int),
                add,
                seg.skip(k as int),
            ),
        decreases langs@.len() - k,
    {
        proof {
            assert(langs@.skip(k as int)[0] == langs@[k as int]);
            assert(langs@.skip(k as int).skip(1) =~= langs@.skip(k + 1));
            assert(seg.skip(k as int)[0] == seg[k as int]);
            assert(seg.skip(k as int).skip(1) =~= seg.skip(k + 1));
            assert(seg[k as int] == bytes_views(lines@)[start + k]);
            assert(bytes_views(lines@)[start + k] == lines@[start + k]@);
        }
        let lang = langs[k];
        let stripped = strip_line(add, lang, &lines[start + k]);
        let c = lang.code();
        let ghost pre = bytes_views(cur@);
        cur.set_at(c, stripped);
        proof {
            assert(bytes_views(cur@) =~= pre.update(c as int, stripped@));
            assert(overlay_lines(pre, langs@.skip(k as int), add, seg.skip(k as int))
                == overlay_lines(
                pre.update(langs@[k as int].spec_code(), spec_strip(
                    add,
                    langs@[k as int],
                    seg[k as int],
                )),
                langs@.skip(k + 1),
                add,
                seg.skip(k + 1),
            ));
            assert(pre.update(langs@[k as int].spec_code(), spec_strip(
                add,
                langs@[k as int],
                seg[k as int],
            )) == bytes_views(cur@));
        }
        k = k + 1;
    }
    proof {
        if k == langs@.len() {
            assert(langs@.skip(k as int) =~= Seq::<Language>::empty());
        } else {
            assert(start + k == end);
            assert(seg.skip(k as int) =~= Seq::<Seq<u8>>::empty());
        }
    }
    cur
}

impl DSLocal {
    /// Serializes the selected languages of every resource to a flat,
    /// ordered list of lines plus the reconstruction envelope: one line
    /// per language per resource, languages ascending, and per resource
    /// a recorded index and line range.
    pub fn internal_serialize_to_lines(
        &self,
        languages: &Vec<Language>,
        add_language_names: bool,
    ) -> (r: (Vec<Vec<u8>>, TxtDeInfo))
        requires
            self.wf(),
        ensures
            ({
                let langs = sorted_langs(languages@, 0);
                let ls = spec_get_locals(self@, 0);
                &&& bytes_views(r.0@) == all_lines(ls, langs, add_language_names)
                &&& r.1@.languages == langs
                &&& r.1@.add_language_names == add_language_names
                &&& r.1@.count == all_lines(ls, langs, add_language_names).len()
                &&& r.1@.info == infos_of(ls, langs, 0)
            }),
    {
        let sel = sorted_langs_exec(languages);
        let ghost langs = sorted_langs(languages@, 0);
        let locals = self.get_locals();
        let ghost lv = locals_views(locals@);
        let add = add_language_names;
        let mut lines: Vec<Vec<u8>> = Vec::new();
        let mut info: Vec<TxtLocalInfo> = Vec::new();
        let mut i: usize = 0;
        proof {
            assert(lv.skip(0) =~= lv);
            assert(Seq::<Seq<u8>>::empty() + all_lines(lv, langs, add) =~= all_lines(
                lv,
                langs,
                add,
            ));
            assert(Seq::<TxtLocalInfo>::empty() + infos_of(lv, langs, 0) =~= infos_of(
                lv,
                langs,
                0,
            ));
        }
        while i < locals.len()
            invariant
                i <= locals@.len(),
                sel@ == langs,
                lv == locals_views(locals@),
                forall|j: int|
                    0 <= j < locals@.len() ==> crate::ds::local::local_wf(
                        #[trigger] locals@[j],
                    ),
                forall|j: int| 0 <= j < langs.len() ==> (#[trigger] langs[j]).spec_code() < 25,
                all_lines(lv, langs, add) == bytes_views(lines@) + all_lines(
                    lv.skip(i as int),
                    langs,
                    add,
                ),
                infos_of(lv, langs, 0) == info@ + infos_of(
                    lv.skip(i as int),
                    langs,
                    lines@.len() as int,
                ),
            decreases locals@.len() - i,
        {
            proof {
                assert(lv.skip(i as int)[0] == lv[i as int]);
                assert(lv.skip(i as int).skip(1) =~= lv.skip(i + 1));
                assert(lv[i as int] == locals@[i as int]@);
            }
            let lr = &locals[i];
            let start = lines.len();
            let ghost ss = bytes_views(lr.strings@);
            let mut k: usize = 0;
            let ghost base = bytes_views(lines@);
            while k < sel.len()
                invariant
                    k <= sel@.len(),
                    sel@ == langs,
                    lr.strings.wf(),
                    ss == bytes_views(lr.strings@),
                    ss.len() == 25,
                    forall|j: int|
                        0 <= j < langs.len() ==> (#[trigger] langs[j]).spec_code() < 25,
                    base == bytes_views(lines@).subrange(0, base.len() as int),
                    bytes_views(lines@).len() == base.len() + k,
                    forall|j: int|
                        0 <= j < k ==> bytes_views(lines@)[base.len() + j]
                            == #[trigger] loc_lines(ss, langs, add)[j],
                decreases sel@.len() - k,
            {
                let lang = sel[k];
                let t = lr.strings.get_at(lang.code());
                let line = make_line(add, lang, t);
                let ghost pre = bytes_views(lines@);
                lines.push(line);
                proof {
                    assert(bytes_views(lines@) =~= pre + seq![line@]);
                    assert(ss[langs[k as int].spec_code()] == lr.strings@[langs[
                        k as int].spec_code()]@);
                    assert(loc_lines(ss, langs, add)[k as int] == spec_line(
                        add,
                        langs[k as int],
                        ss[langs[k as int].spec_code()],
                    ));
                    assert(pre.subrange(0, base.len() as int) =~= base);
                    assert forall|j: int|
                        0 <= j < k + 1 implies bytes_views(lines@)[base.len() + j]
                            == #[trigger] loc_lines(ss, langs, add)[j] by {
                        if j < k {
                            assert(bytes_views(lines@)[base.len() + j] == pre[base.len() + j]);
                        } else {
                            assert(bytes_views(lines@)[base.len() + j] == line@);
                        }
                    }
                }
                k = k + 1;
            }
            let end = lines.len();
            let entry = TxtLocalInfo { index: lr.index, start, end };
            let ghost prev_info = info@;
            info.push(entry);
            proof {
                let n = langs.len() as int;
                assert(loc_lines(ss, langs, add).len() == n);
                assert(bytes_views(lines@) =~= bytes_views(lines@).subrange(0, start as int)
                    + loc_lines(lv[i as int].strings, langs, add));
                assert(end == start + n);
                assert(entry == infos_of(lv.skip(i as int), langs, start as int)[0]);
                assert(info@ =~= prev_info + seq![entry]);
                assert(infos_of(lv.skip(i as int), langs, start as int) == seq![entry]
                    + infos_of(lv.skip(i + 1), langs, end as int));
                assert(prev_info + (seq![entry] + infos_of(lv.skip(i + 1), langs, end as int))
                    =~= (prev_info + seq![entry]) + infos_of(lv.skip(i + 1), langs, end as int));
                assert(all_lines(lv, langs, add) == bytes_views(lines@).subrange(0, start as int)
                    + (loc_lines(lv[i as int].strings, langs, add) + all_lines(
                    lv.skip(i + 1),
                    langs,
                    add,
                )));
                assert(bytes_views(lines@).subrange(0, start as int) + (loc_lines(
                    lv[i as int].strings,
                    langs,
                    add,
                ) + all_lines(lv.skip(i + 1), langs, add)) =~= bytes_views(lines@) + all_lines(
                    lv.skip(i + 1),
                    langs,
                    add,
                ));
            }
            i = i + 1;
        }
        proof {
            assert(lv.skip(i as int) =~= Seq::<LocalResourceModel>::empty());
            assert(bytes_views(lines@) + Seq::<Seq<u8>>::empty() =~= bytes_views(lines@));
            assert(info@ + Seq::<TxtLocalInfo>::empty() =~= info@);
        }
        let count = lines.len();
        let de = TxtDeInfo { languages: sel, add_language_names: add, count, info };
        (lines, de)
    }

    /// Applies a line-list import back onto the container, strictly by
    /// the envelope's recorded ranges.  A line count different from the
    /// envelope's fails before any resource is touched; so does the
    /// first entry naming a bad index, a bad range or the wrong kind.
    pub fn internal_deserialize_and_update_from_lines(
        &mut self,
        lines: &Vec<Vec<u8>>,
        deinfo: TxtDeInfo,
    ) -> (r: Result<(), DSError>)
        requires
            old(self).wf(),
        ensures
            final(self).wf(),
            match spec_import_lines(old(self)@, bytes_views(lines@), deinfo@) {
                Err(e0) => r == Err::<(), DSError>(e0) && final(self)@ == old(self)@,
                Ok(ls) => match r {
                    Ok(_) => spec_update_locals(old(self)@, ls) == Ok::<_, DSError>(
                        final(self)@,
                    ),
                    Err(e) => spec_update_locals(old(self)@, ls) == Err::<Seq<ChunkModel>, _>(e),
                },
            },
    {
        let ghost lsv = bytes_views(lines@);
        let ghost cs = old(self)@;
        let ghost de = deinfo@;
        if lines.len() != deinfo.count {
            return Err(
                DSError::LineCountDoesntMatchWithInput {
                    expected: deinfo.count,
                    got: lines.len(),
                },
            );
        }
        let mut locals: Vec<crate::ds::local::LocalResource> = Vec::new();
        let mut i: usize = 0;
        proof {
            if spec_lines_locals(cs, lsv, de, 0) is Ok {
                let rest = spec_lines_locals(cs, lsv, de, 0)->Ok_0;
                assert(Seq::<LocalResourceModel>::empty() + rest =~= rest);
            }
        }
        while i < deinfo.info.len()
            invariant
                i <= deinfo.info@.len(),
                lsv == bytes_views(lines@),
                lsv.len() == de.count,
                cs == old(self)@,
                de == deinfo@,
                self@ == old(self)@,
                self.wf(),
                locals@.len() == i,
                forall|j: int|
                    0 <= j < i ==> crate::ds::local::local_wf(#[trigger] locals@[j]),
                match spec_lines_locals(cs, lsv, de, i as int) {
                    Ok(rest) => spec_lines_locals(cs, lsv, de, 0) == Ok::<_, DSError>(
                        locals_views(locals@) + rest,
                    ),
                    Err(e) => spec_lines_locals(cs, lsv, de, 0) == Err::<
                        Seq<LocalResourceModel>,
                        _,
                    >(e),
                },
            decreases deinfo.info@.len() - i,
        {
            let inf = deinfo.info[i];
            proof {
                assert(de.info[i as int] == inf);
            }
            if inf.index >= self.chunks.len() {
                return Err(
                    DSError::InvalidLocalResourceIdx {
                        max: self.chunks.len(),
                        got: inf.index,
                    },
                );
            }
            if !(inf.start <= inf.end && inf.end <= lines.len()) {
                return Err(
                    DSError::InvalidIndex { max: lines.len(), invalid_index: inf.index },
                );
            }
            proof {
                assert(cs[inf.index as int] == self.chunks@[inf.index as int]@);
                assert(crate::ds::structures::wf_chunk(cs[inf.index as int]));
            }
            let built: crate::ds::local::LocalResource = match &self.chunks[inf.index].variant {
                ChunkVariants::Localized(loc) => {
                    let base = localized_texts_exec(loc);
                    let overlaid = overlay_lines_exec(
                        base,
                        &deinfo.languages,
                        deinfo.add_language_names,
                        lines,
                        inf.start,
                        inf.end,
                    );
                    crate::ds::local::LocalResource { index: inf.index, strings: overlaid }
                },
                ChunkVariants::Others { .. } => {
                    return Err(
                        DSError::ResourceNotMatchAtIdx {
                            input: ResourceKind::Localized,
                            original: ResourceKind::Others,
                        },
                    );
                },
            };
            let ghost prev = locals_views(locals@);
            locals.push(built);
            proof {
                assert(locals_views(locals@) =~= prev + seq![built@]);
                if spec_lines_locals(cs, lsv, de, i + 1) is Ok {
                    let rest = spec_lines_locals(cs, lsv, de, i + 1)->Ok_0;
                    assert(prev + (seq![built@] + rest) =~= (prev + seq![built@]) + rest);
                }
            }
            i = i + 1;
        }
        proof {
            assert(locals_views(locals@) + Seq::<LocalResourceModel>::empty() =~= locals_views(
                locals@,
            ));
        }
        self.update_locals(locals)
    }
}

} // verus!
