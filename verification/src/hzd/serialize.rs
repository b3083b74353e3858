//! Structured-document and line-list serialization for this title.
//!
//! The document form holds, per exported resource, the selected
//! languages' text keyed by language; the line-list form holds one
//! physical line per string together with a reconstruction envelope.
//! Importing applies the document or lines back onto the container.

use crate::error::ResourceKind;
use crate::hzd::error::HZDError;
use crate::hzd::local::{
    bytes_views, cutscene_texts, list_views, local_of_chunk, locals_views, spec_get_locals,
    spec_update_locals, HZDLocal, LocalModel, LocalResource, LocalResourceModel, LocalVariants,
};
use crate::hzd::structures::{ChunkModel, ChunkVariants, VariantModel};
use crate::hzd::{LangMap, Language};
use crate::fixed_map::EnumKey;
use crate::wire::take_bytes;
use vstd::prelude::*;
use vstd::utf8::valid_utf8;

verus! {

// ------------------------------------------------------- document form

/// The document content of one resource: the selected languages' text,
/// in ascending language order.
pub enum SerdeLocalVariants {
    Localized(Vec<(Language, Vec<u8>)>),
    Cutscene(Vec<(Language, Vec<Vec<u8>>)>),
}

/// One document entry: the source chunk index and the content.
pub struct SerdeLocal {
    pub index: usize,
    pub variant: SerdeLocalVariants,
}

/// The mathematical content of a document entry.
pub ghost enum SerdeVariantModel {
    Localized(Seq<(Language, Seq<u8>)>),
    Cutscene(Seq<(Language, Seq<Seq<u8>>)>),
}

/// A document entry, as a mathematical value.
pub ghost struct SerdeLocalModel {
    pub index: int,
    pub variant: SerdeVariantModel,
}

/// The views of a list of per-language text pairs.
pub open spec fn pair_views_loc(ps: Seq<(Language, Vec<u8>)>) -> Seq<(Language, Seq<u8>)> {
    ps.map_values(|p: (Language, Vec<u8>)| (p.0, p.1@))
}

/// The views of a list of per-language line-list pairs.
pub open spec fn pair_views_cut(ps: Seq<(Language, Vec<Vec<u8>>)>) -> Seq<(Language, Seq<Seq<u8>>)> {
    ps.map_values(|p: (Language, Vec<Vec<u8>>)| (p.0, bytes_views(p.1@)))
}

impl View for SerdeLocalVariants {
    type V = SerdeVariantModel;

    open spec fn view(&self) -> SerdeVariantModel {
        match self {
            SerdeLocalVariants::Localized(ps) => SerdeVariantModel::Localized(pair_views_loc(ps@)),
            SerdeLocalVariants::Cutscene(ps) => SerdeVariantModel::Cutscene(pair_views_cut(ps@)),
        }
    }
}

impl SerdeLocalVariants {
    /// The kind of the entry, by name.
    pub fn name(&self) -> (r: &'static str)
        ensures
            self is Localized ==> r@ == "Localized"@,
            self is Cutscene ==> r@ == "Cutscene"@,
    {
        match self {
            SerdeLocalVariants::Localized(_) => "Localized",
            SerdeLocalVariants::Cutscene(_) => "Cutscene",
        }
    }
}

impl View for SerdeLocal {
    type V = SerdeLocalModel;

    open spec fn view(&self) -> SerdeLocalModel {
        SerdeLocalModel { index: self.index as int, variant: self.variant@ }
    }
}

/// The models of a list of document entries.
pub open spec fn serde_views(ds: Seq<SerdeLocal>) -> Seq<SerdeLocalModel> {
    ds.map_values(|d: SerdeLocal| d@)
}

/// True when a language with code `l` is among `langs`.
pub open spec fn selected(langs: Seq<Language>, l: int) -> bool {
    exists|i: int| 0 <= i < langs.len() && (#[trigger] langs[i]).spec_code() == l
}

/// The document pairs for one string-per-language resource, from
/// language code `l` up.
pub open spec fn doc_pairs_loc(strings: Seq<Seq<u8>>, langs: Seq<Language>, l: int) -> Seq<
    (Language, Seq<u8>),
>
    decreases 21 - l,
    when 0 <= l <= 21
{
    if l >= 21 {
        Seq::empty()
    } else if selected(langs, l) {
        seq![(Language::spec_from_code(l), strings[l])] + doc_pairs_loc(strings, langs, l + 1)
    } else {
        doc_pairs_loc(strings, langs, l + 1)
    }
}

/// The document pairs for one line-list-per-language resource.
pub open spec fn doc_pairs_cut(texts: Seq<Seq<Seq<u8>>>, langs: Seq<Language>, l: int) -> Seq<
    (Language, Seq<Seq<u8>>),
>
    decreases 21 - l,
    when 0 <= l <= 21
{
    if l >= 21 {
        Seq::empty()
    } else if selected(langs, l) {
        seq![(Language::spec_from_code(l), texts[l])] + doc_pairs_cut(texts, langs, l + 1)
    } else {
        doc_pairs_cut(texts, langs, l + 1)
    }
}

/// The document entry of one extracted resource.
pub open spec fn spec_doc_of_local(l: LocalResourceModel, langs: Seq<Language>) -> SerdeLocalModel {
    match l.variant {
        LocalModel::Localized(ss) => SerdeLocalModel {
            index: l.index,
            variant: SerdeVariantModel::Localized(doc_pairs_loc(ss, langs, 0)),
        },
        LocalModel::Cutscene(ts) => SerdeLocalModel {
            index: l.index,
            variant: SerdeVariantModel::Cutscene(doc_pairs_cut(ts, langs, 0)),
        },
    }
}

/// The whole document of a container's resources.
pub open spec fn spec_serialize(ls: Seq<LocalResourceModel>, langs: Seq<Language>) -> Seq<
    SerdeLocalModel,
> {
    ls.map_values(|l: LocalResourceModel| spec_doc_of_local(l, langs))
}

/// Decides whether a language with code `l` is among `languages`.
pub fn lang_selected(languages: &Vec<Language>, l: usize) -> (r: bool)
    ensures
        r == selected(languages@, l as int),
{
    let mut i: usize = 0;
    while i < languages.len()
        invariant
            i <= languages@.len(),
            forall|j: int| 0 <= j < i ==> (#[trigger] languages@[j]).spec_code() != l,
        decreases languages@.len() - i,
    {
        if languages[i].code() == l {
            return true;
        }
        i = i + 1;
    }
    false
}

/// Builds the document pairs of one string-per-language resource.
fn doc_pairs_loc_exec(texts: &LangMap<Vec<u8>>, languages: &Vec<Language>) -> (r: Vec<
    (Language, Vec<u8>),
>)
    requires
        texts.wf(),
    ensures
        pair_views_loc(r@) == doc_pairs_loc(bytes_views(texts@), languages@, 0),
{
    let ghost sv = bytes_views(texts@);
    let mut out: Vec<(Language, Vec<u8>)> = Vec::new();
    let mut l: usize = 0;
    proof {
        assert(pair_views_loc(out@) =~= Seq::<(Language, Seq<u8>)>::empty());
        assert(Seq::<(Language, Seq<u8>)>::empty() + doc_pairs_loc(sv, languages@, 0)
            =~= doc_pairs_loc(sv, languages@, 0));
    }
    while l < 21
        invariant
            l <= 21,
            texts.wf(),
            sv == bytes_views(texts@),
            doc_pairs_loc(sv, languages@, 0) == pair_views_loc(out@) + doc_pairs_loc(
                sv,
                languages@,
                l as int,
            ),
        decreases 21 - l,
    {
        if lang_selected(languages, l) {
            let lang = Language::from_code(l);
            proof {
                crate::hzd::lemma_from_code_matches_spec(l as int);
                crate::hzd::lemma_lang_code_injective(lang, Language::spec_from_code(l as int));
            }
            let t = texts.get_at(l);
            let copy = take_bytes(t, 0, t.len());
            let ghost prev = pair_views_loc(out@);
            out.push((lang, copy));
            proof {
                assert(sv[l as int] == texts@[l as int]@);
                assert(pair_views_loc(out@) =~= prev + seq![(lang, copy@)]);
                assert(doc_pairs_loc(sv, languages@, l as int) == seq![(lang, sv[l as int])]
                    + doc_pairs_loc(sv, languages@, l + 1));
                assert((lang, copy@) == (lang, sv[l as int]));
                assert(prev + (seq![(lang, copy@)] + doc_pairs_loc(sv, languages@, l + 1)) =~= (
                prev + seq![(lang, copy@)]) + doc_pairs_loc(sv, languages@, l + 1));
            }
        } else {
            proof {
                assert(doc_pairs_loc(sv, languages@, l as int) == doc_pairs_loc(
                    sv,
                    languages@,
                    l + 1,
                ));
            }
        }
        l = l + 1;
    }
    proof {
        assert(pair_views_loc(out@) + Seq::<(Language, Seq<u8>)>::empty() =~= pair_views_loc(
            out@,
        ));
    }
    out
}

/// Builds the document pairs of one line-list-per-language resource.
fn doc_pairs_cut_exec(texts: &LangMap<Vec<Vec<u8>>>, languages: &Vec<Language>) -> (r: Vec<
    (Language, Vec<Vec<u8>>),
>)
    requires
        texts.wf(),
    ensures
        pair_views_cut(r@) == doc_pairs_cut(list_views(texts@), languages@, 0),
{
    let ghost sv = list_views(texts@);
    let mut out: Vec<(Language, Vec<Vec<u8>>)> = Vec::new();
    let mut l: usize = 0;
    proof {
        assert(pair_views_cut(out@) =~= Seq::<(Language, Seq<Seq<u8>>)>::empty());
        assert(Seq::<(Language, Seq<Seq<u8>>)>::empty() + doc_pairs_cut(sv, languages@, 0)
            =~= doc_pairs_cut(sv, languages@, 0));
    }
    while l < 21
        invariant
            l <= 21,
            texts.wf(),
            sv == list_views(texts@),
            doc_pairs_cut(sv, languages@, 0) == pair_views_cut(out@) + doc_pairs_cut(
                sv,
                languages@,
                l as int,
            ),
        decreases 21 - l,
    {
        if lang_selected(languages, l) {
            let lang = Language::from_code(l);
            proof {
                crate::hzd::lemma_from_code_matches_spec(l as int);
                crate::hzd::lemma_lang_code_injective(lang, Language::spec_from_code(l as int));
            }
            let ts = texts.get_at(l);
            let copy = copy_text_list(ts);
            let ghost prev = pair_views_cut(out@);
            out.push((lang, copy));
            proof {
                assert(sv[l as int] == bytes_views(texts@[l as int]@));
                assert(pair_views_cut(out@) =~= prev + seq![(lang, bytes_views(copy@))]);
                assert(prev + (seq![(lang, bytes_views(copy@))] + doc_pairs_cut(
                    sv,
                    languages@,
                    l + 1,
                )) =~= (prev + seq![(lang, bytes_views(copy@))]) + doc_pairs_cut(
                    sv,
                    languages@,
                    l + 1,
                ));
            }
        }
        l = l + 1;
    }
    proof {
        assert(pair_views_cut(out@) + Seq::<(Language, Seq<Seq<u8>>)>::empty() =~= pair_views_cut(
            out@,
        ));
    }
    out
}

/// Copies a list of text lines.
fn copy_text_list(ts: &Vec<Vec<u8>>) -> (r: Vec<Vec<u8>>)
    ensures
        bytes_views(r@) == bytes_views(ts@),
{
    let mut out: Vec<Vec<u8>> = Vec::new();
    let mut k: usize = 0;
    while k < ts.len()
        invariant
            k <= ts@.len(),
            out@.len() == k,
            forall|j: int| 0 <= j < k ==> (#[trigger] bytes_views(out@)[j]) == bytes_views(ts@)[j],
        decreases ts@.len() - k,
    {
        let t = &ts[k];
        let ghost pre = out@;
        let copy = take_bytes(t, 0, t.len());
        out.push(copy);
        proof {
            assert forall|j: int| 0 <= j < k + 1 implies (#[trigger] bytes_views(out@)[j])
                == bytes_views(ts@)[j] by {
                assert(bytes_views(out@)[j] == out@[j]@);
                assert(bytes_views(ts@)[j] == ts@[j]@);
                if j < k {
                    assert(out@[j] == pre[j]);
                    assert(bytes_views(pre)[j] == pre[j]@);
                }
            }
        }
        k = k + 1;
    }
    proof {
        assert(bytes_views(out@) =~= bytes_views(ts@));
    }
    out
}

impl HZDLocal {
    /// Serializes the selected languages of every resource to an
    /// in-memory document.
    pub fn internal_serialize(&self, languages: &Vec<Language>) -> (r: Vec<SerdeLocal>)
        requires
            self.wf(),
        ensures
            serde_views(r@) == spec_serialize(spec_get_locals(self@, 0), languages@),
    {
        let locals = self.get_locals();
        let ghost lv = locals_views(locals@);
        let mut out: Vec<SerdeLocal> = Vec::new();
        let mut i: usize = 0;
        while i < locals.len()
            invariant
                i <= locals@.len(),
                lv == locals_views(locals@),
                forall|j: int|
                    0 <= j < locals@.len() ==> crate::hzd::local::local_wf(
                        #[trigger] locals@[j],
                    ),
                out@.len() == i,
                forall|j: int|
                    0 <= j < i ==> (#[trigger] serde_views(out@)[j]) == spec_doc_of_local(
                        lv[j],
                        languages@,
                    ),
            decreases locals@.len() - i,
        {
            let lr = &locals[i];
            proof {
                assert(lv[i as int] == locals@[i as int]@);
            }
            let variant = match &lr.variant {
                LocalVariants::Localized(texts) => SerdeLocalVariants::Localized(
                    doc_pairs_loc_exec(texts, languages),
                ),
                LocalVariants::Cutscene(texts) => SerdeLocalVariants::Cutscene(
                    doc_pairs_cut_exec(texts, languages),
                ),
            };
            let entry = SerdeLocal { index: lr.index, variant };
            let ghost pre = out@;
            out.push(entry);
            proof {
                assert forall|j: int| 0 <= j < i + 1 implies (#[trigger] serde_views(out@)[j])
                    == spec_doc_of_local(lv[j], languages@) by {
                    assert(serde_views(out@)[j] == out@[j]@);
                    if j < i {
                        assert(out@[j] == pre[j]);
                        assert(serde_views(pre)[j] == pre[j]@);
                    } else {
                        assert(out@[j] == entry);
                    }
                }
            }
            i = i + 1;
        }
        proof {
            assert(serde_views(out@) =~= spec_serialize(spec_get_locals(self@, 0), languages@));
        }
        out
    }
}


// ------------------------------------------------------ document import

/// The kind of a document entry.
pub open spec fn serde_kind(v: SerdeVariantModel) -> ResourceKind {
    match v {
        SerdeVariantModel::Localized(_) => ResourceKind::Localized,
        SerdeVariantModel::Cutscene(_) => ResourceKind::Cutscene,
    }
}

/// Applies document pairs onto a per-language string table, later pairs
/// winning.
pub open spec fn apply_pairs_loc(strings: Seq<Seq<u8>>, pairs: Seq<(Language, Seq<u8>)>) -> Seq<
    Seq<u8>,
>
    decreases pairs.len(),
{
    if pairs.len() == 0 {
        strings
    } else {
        apply_pairs_loc(strings.update(pairs[0].0.spec_code(), pairs[0].1), pairs.skip(1))
    }
}

/// Applies document pairs onto a per-language line-list table.
pub open spec fn apply_pairs_cut(
    texts: Seq<Seq<Seq<u8>>>,
    pairs: Seq<(Language, Seq<Seq<u8>>)>,
) -> Seq<Seq<Seq<u8>>>
    decreases pairs.len(),
{
    if pairs.len() == 0 {
        texts
    } else {
        apply_pairs_cut(texts.update(pairs[0].0.spec_code(), pairs[0].1), pairs.skip(1))
    }
}

/// The resource updates a document stands for: each entry's selected
/// languages overlaid on the chunk's current text.  The first entry
/// naming a bad index or the wrong kind is the failure.
pub open spec fn spec_import_doc(cs: Seq<ChunkModel>, ds: Seq<SerdeLocalModel>) -> Result<
    Seq<LocalResourceModel>,
    HZDError,
>
    decreases ds.len(),
{
    if ds.len() == 0 {
        Ok(Seq::empty())
    } else {
        let d = ds[0];
        if d.index < 0 || d.index >= cs.len() {
            Err(
                HZDError::InvalidLocalResourceIdx {
                    max: cs.len() as usize,
                    got: d.index as usize,
                },
            )
        } else {
            let step: Result<LocalResourceModel, HZDError> = match (d.variant, cs[d.index].variant) {
                (SerdeVariantModel::Localized(pairs), VariantModel::Localized(m)) => Ok(
                    LocalResourceModel {
                        index: d.index,
                        variant: LocalModel::Localized(apply_pairs_loc(m.strings, pairs)),
                    },
                ),
                (SerdeVariantModel::Cutscene(pairs), VariantModel::Cutscene(m)) => Ok(
                    LocalResourceModel {
                        index: d.index,
                        variant: LocalModel::Cutscene(apply_pairs_cut(cutscene_texts(m), pairs)),
                    },
                ),
                (dv, cv) => Err(
                    HZDError::ResourceNotMatchAtIdx {
                        input: serde_kind(dv),
                        original: crate::hzd::local::kind_of_variant(cv),
                    },
                ),
            };
            match step {
                Err(e) => Err(e),
                Ok(l) => match spec_import_doc(cs, ds.skip(1)) {
                    Err(e) => Err(e),
                    Ok(rest) => Ok(seq![l] + rest),
                },
            }
        }
    }
}

/// A document entry's texts are valid UTF-8.
pub open spec fn doc_input_ok(d: SerdeLocalModel) -> bool {
    match d.variant {
        SerdeVariantModel::Localized(_) => true,
        SerdeVariantModel::Cutscene(pairs) => forall|a: int, b: int|
            0 <= a < pairs.len() && 0 <= b < pairs[a].1.len() ==> valid_utf8(
                #[trigger] pairs[a].1[b],
            ),
    }
}

/// Overlays document pairs onto a copied string table.
fn overlay_pairs_loc(base: LangMap<Vec<u8>>, pairs: &Vec<(Language, Vec<u8>)>) -> (r: LangMap<
    Vec<u8>,
>)
    requires
        base.wf(),
    ensures
        r.wf(),
        bytes_views(r@) == apply_pairs_loc(bytes_views(base@), pair_views_loc(pairs@)),
{
    let ghost b0 = bytes_views(base@);
    let ghost pv = pair_views_loc(pairs@);
    let mut cur = base;
    let mut i: usize = 0;
    proof {
        assert(pv.skip(0) =~= pv);
    }
    while i < pairs.len()
        invariant
            i <= pairs@.len(),
            pv == pair_views_loc(pairs@),
            cur.wf(),
            apply_pairs_loc(b0, pv) == apply_pairs_loc(bytes_views(cur@), pv.skip(i as int)),
        decreases pairs@.len() - i,
    {
        proof {
            assert(pv.skip(i as int)[0] == pv[i as int]);
            assert(pv.skip(i as int).skip(1) =~= pv.skip(i + 1));
            assert(pv[i as int] == (pairs@[i as int].0, pairs@[i as int].1@));
        }
        let p = &pairs[i];
        let c = p.0.code();
        let copy = take_bytes(&p.1, 0, p.1.len());
        let ghost pre = bytes_views(cur@);
        cur.set_at(c, copy);
        proof {
            assert(bytes_views(cur@) =~= pre.update(c as int, copy@));
            assert(copy@ == pv[i as int].1);
            assert(c as int == pv[i as int].0.spec_code());
            assert(apply_pairs_loc(pre, pv.skip(i as int)) == apply_pairs_loc(
                pre.update(pv[i as int].0.spec_code(), pv[i as int].1),
                pv.skip(i + 1),
            ));
            assert(pre.update(pv[i as int].0.spec_code(), pv[i as int].1) == bytes_views(cur@));
        }
        i = i + 1;
    }
    proof {
        assert(pv.skip(i as int) =~= Seq::<(Language, Seq<u8>)>::empty());
    }
    cur
}


/// Overlays document pairs onto a copied line-list table, and keeps
/// every text valid UTF-8 when the inputs are.
fn overlay_pairs_cut(base: LangMap<Vec<Vec<u8>>>, pairs: &Vec<(Language, Vec<Vec<u8>>)>) -> (r:
    LangMap<Vec<Vec<u8>>>)
    requires
        base.wf(),
    ensures
        r.wf(),
        list_views(r@) == apply_pairs_cut(list_views(base@), pair_views_cut(pairs@)),
        (forall|a: int, b: int|
            0 <= a < list_views(base@).len() && 0 <= b < list_views(base@)[a].len() ==> valid_utf8(
                #[trigger] list_views(base@)[a][b],
            )) && (forall|a: int, b: int|
            0 <= a < pair_views_cut(pairs@).len() && 0 <= b < pair_views_cut(pairs@)[a].1.len()
                ==> valid_utf8(#[trigger] pair_views_cut(pairs@)[a].1[b])) ==> (forall|
            a: int,
            b: int,
        |
            0 <= a < list_views(r@).len() && 0 <= b < list_views(r@)[a].len() ==> valid_utf8(
                #[trigger] list_views(r@)[a][b],
            )),
{
    let ghost b0 = list_views(base@);
    let ghost pv = pair_views_cut(pairs@);
    let ghost base_ok = forall|a: int, b: int|
        0 <= a < b0.len() && 0 <= b < b0[a].len() ==> valid_utf8(#[trigger] b0[a][b]);
    let ghost pairs_ok = forall|a: int, b: int|
        0 <= a < pv.len() && 0 <= b < pv[a].1.len() ==> valid_utf8(#[trigger] pv[a].1[b]);
    let mut cur = base;
    let mut i: usize = 0;
    proof {
        assert(pv.skip(0) =~= pv);
    }
    while i < pairs.len()
        invariant
            i <= pairs@.len(),
            pv == pair_views_cut(pairs@),
            b0 == list_views(base@),
            base_ok == (forall|a: int, b: int|
                0 <= a < b0.len() && 0 <= b < b0[a].len() ==> valid_utf8(#[trigger] b0[a][b])),
            pairs_ok == (forall|a: int, b: int|
                0 <= a < pv.len() && 0 <= b < pv[a].1.len() ==> valid_utf8(
                    #[trigger] pv[a].1[b],
                )),
            cur.wf(),
            apply_pairs_cut(b0, pv) == apply_pairs_cut(list_views(cur@), pv.skip(i as int)),
            base_ok && pairs_ok ==> (forall|a: int, b: int|
                0 <= a < list_views(cur@).len() && 0 <= b < list_views(cur@)[a].len()
                    ==> valid_utf8(#[trigger] list_views(cur@)[a][b])),
        decreases pairs@.len() - i,
    {
        proof {
            assert(pv.skip(i as int)[0] == pv[i as int]);
            assert(pv.skip(i as int).skip(1) =~= pv.skip(i + 1));
            assert(pv[i as int] == (pairs@[i as int].0, bytes_views(pairs@[i as int].1@)));
        }
        let p = &pairs[i];
        let c = p.0.code();
        let copy = copy_text_list(&p.1);
        let ghost pre = list_views(cur@);
        cur.set_at(c, copy);
        proof {
            assert(list_views(cur@) =~= pre.update(c as int, bytes_views(copy@)));
            assert(bytes_views(copy@) == pv[i as int].1);
            assert(c as int == pv[i as int].0.spec_code());
            assert(apply_pairs_cut(pre, pv.skip(i as int)) == apply_pairs_cut(
                pre.update(pv[i as int].0.spec_code(), pv[i as int].1),
                pv.skip(i + 1),
            ));
            assert(pre.update(pv[i as int].0.spec_code(), pv[i as int].1) == list_views(cur@));
            if base_ok && pairs_ok {
                assert forall|a: int, b: int|
                    0 <= a < list_views(cur@).len() && 0 <= b < list_views(cur@)[a].len()
                        implies valid_utf8(#[trigger] list_views(cur@)[a][b]) by {
                    if a == c as int {
                        assert(list_views(cur@)[a] == pv[i as int].1);
                    } else {
                        assert(list_views(cur@)[a] == pre[a]);
                    }
                }
            }
        }
        i = i + 1;
    }
    proof {
        assert(pv.skip(i as int) =~= Seq::<(Language, Seq<Seq<u8>>)>::empty());
    }
    cur
}

impl HZDLocal {
    /// Applies a document back onto the container: each entry's selected
    /// languages replace the chunk's current text, other languages stay.
    /// The first entry naming a bad index or the wrong kind fails before
    /// anything is touched; a failing update later in the batch leaves
    /// the entries before it applied.
    pub fn internal_deserialize_and_update(&mut self, data: Vec<SerdeLocal>) -> (r: Result<
        (),
        HZDError,
    >)
        requires
            old(self).wf(),
            forall|i: int| 0 <= i < data@.len() ==> doc_input_ok((#[trigger] data@[i])@),
        ensures
            final(self).wf(),
            match spec_import_doc(old(self)@, serde_views(data@)) {
                Err(e0) => r == Err::<(), HZDError>(e0) && final(self)@ == old(self)@,
                Ok(ls) => match r {
                    Ok(_) => spec_update_locals(old(self)@, ls) == Ok::<_, HZDError>(
                        final(self)@,
                    ),
                    Err(e) => spec_update_locals(old(self)@, ls) == Err::<Seq<ChunkModel>, _>(e),
                },
            },
    {
        let ghost dv = serde_views(data@);
        let ghost cs = old(self)@;
        let mut locals: Vec<LocalResource> = Vec::new();
        let mut i: usize = 0;
        proof {
            assert(dv.skip(0) =~= dv);
            if spec_import_doc(cs, dv) is Ok {
                let rest = spec_import_doc(cs, dv)->Ok_0;
                assert(Seq::<LocalResourceModel>::empty() + rest =~= rest);
            }
        }
        while i < data.len()
            invariant
                i <= data@.len(),
                dv == serde_views(data@),
                cs == old(self)@,
                self@ == old(self)@,
                self.wf(),
                forall|j: int| 0 <= j < data@.len() ==> doc_input_ok((#[trigger] data@[j])@),
                locals@.len() == i,
                forall|j: int|
                    0 <= j < i ==> crate::hzd::local::local_wf(#[trigger] locals@[j]),
                forall|j: int|
                    0 <= j < i ==> crate::hzd::local::local_input_ok((#[trigger] locals@[j])@),
                match spec_import_doc(cs, dv.skip(i as int)) {
                    Ok(rest) => spec_import_doc(cs, dv) == Ok::<_, HZDError>(
                        locals_views(locals@) + rest,
                    ),
                    Err(e) => spec_import_doc(cs, dv) == Err::<Seq<LocalResourceModel>, _>(e),
                },
            decreases data@.len() - i,
        {
            proof {
                assert(dv.skip(i as int)[0] == dv[i as int]);
                assert(dv.skip(i as int).skip(1) =~= dv.skip(i + 1));
                assert(dv[i as int] == data@[i as int]@);
            }
            let d = &data[i];
            let idx = d.index;
            if idx >= self.chunks.len() {
                return Err(
                    HZDError::InvalidLocalResourceIdx { max: self.chunks.len(), got: idx },
                );
            }
            proof {
                assert(cs[idx as int] == self.chunks@[idx as int]@);
                assert(crate::hzd::structures::wf_chunk(cs[idx as int]));
            }
            let built: LocalResource = match (&d.variant, &self.chunks[idx].variant) {
                (SerdeLocalVariants::Localized(pairs), ChunkVariants::Localized(loc)) => {
                    let base = crate::hzd::local::localized_texts(loc);
                    let overlaid = overlay_pairs_loc(base, pairs);
                    LocalResource { index: idx, variant: LocalVariants::Localized(overlaid) }
                },
                (SerdeLocalVariants::Cutscene(pairs), ChunkVariants::Cutscene(cut)) => {
                    let base = crate::hzd::local::cutscene_texts_exec(cut);
                    proof {
                        assert forall|a: int, b: int|
                            0 <= a < list_views(base@).len() && 0 <= b < list_views(
                                base@,
                            )[a].len() implies valid_utf8(
                            #[trigger] list_views(base@)[a][b],
                        ) by {
                            let m = cs[idx as int].variant->Cutscene_0;
                            assert(list_views(base@)[a] == cutscene_texts(m)[a]);
                            assert(cutscene_texts(m)[a] == crate::hzd::local::entry_texts(
                                crate::hzd::local::lang_entries(m.groups, a),
                            ));
                            let es = crate::hzd::local::lang_entries(m.groups, a);
                            assert(crate::hzd::local::entry_texts(es)[b]
                                == vstd::utf8::encode_utf8(crate::utf16::utf16_decode(
                                es[b].units,
                            )));
                            vstd::utf8::encode_utf8_valid_utf8(crate::utf16::utf16_decode(
                                es[b].units,
                            ));
                        }
                        assert(doc_input_ok(dv[i as int]));
                    }
                    let overlaid = overlay_pairs_cut(base, pairs);
                    LocalResource { index: idx, variant: LocalVariants::Cutscene(overlaid) }
                },
                (dvv, cvv) => {
                    let input = match dvv {
                        SerdeLocalVariants::Localized(_) => ResourceKind::Localized,
                        SerdeLocalVariants::Cutscene(_) => ResourceKind::Cutscene,
                    };
                    let original = match cvv {
                        ChunkVariants::Localized(_) => ResourceKind::Localized,
                        ChunkVariants::Cutscene(_) => ResourceKind::Cutscene,
                        ChunkVariants::Others { .. } => ResourceKind::Others,
                    };
                    return Err(HZDError::ResourceNotMatchAtIdx { input, original });
                },
            };
            let ghost prev = locals_views(locals@);
            locals.push(built);
            proof {
                assert(locals_views(locals@) =~= prev + seq![built@]);
                if spec_import_doc(cs, dv.skip(i + 1)) is Ok {
                    let rest = spec_import_doc(cs, dv.skip(i + 1))->Ok_0;
                    assert(prev + (seq![built@] + rest) =~= (prev + seq![built@]) + rest);
                }
            }
            i = i + 1;
        }
        proof {
            assert(dv.skip(i as int) =~= Seq::<SerdeLocalModel>::empty());
            assert(locals_views(locals@) + Seq::<LocalResourceModel>::empty() =~= locals_views(
                locals@,
            ));
        }
        self.update_locals(locals)
    }
}


// ------------------------------------------------------- line-list form

/// The kind tag recorded for one line-list entry.
#[derive(Clone, Copy, Debug, PartialEq, Eq, Structural)]
pub enum TxtLocalVariants {
    Localized,
    Cutscene,
}

impl TxtLocalVariants {
    /// The kind of the entry, by name.
    pub fn name(&self) -> (r: &'static str)
        ensures
            self is Localized ==> r@ == "Localized"@,
            self is Cutscene ==> r@ == "Cutscene"@,
    {
        match self {
            TxtLocalVariants::Localized => "Localized",
            TxtLocalVariants::Cutscene => "Cutscene",
        }
    }
}

/// One envelope entry: a chunk index, the contiguous line range its
/// strings occupy, and the resource kind.
#[derive(Clone, Copy, Debug, PartialEq, Eq, Structural)]
pub struct TxtLocalInfo {
    pub index: usize,
    pub start: usize,
    pub end: usize,
    pub variant: TxtLocalVariants,
}

/// The reconstruction envelope of a line-list export.
pub struct TxtDeInfo {
    pub languages: Vec<Language>,
    pub add_language_names: bool,
    pub count: usize,
    pub info: Vec<TxtLocalInfo>,
}

/// The envelope, as a mathematical value.
pub ghost struct TxtDeInfoModel {
    pub languages: Seq<Language>,
    pub add_language_names: bool,
    pub count: int,
    pub info: Seq<TxtLocalInfo>,
}

impl View for TxtDeInfo {
    type V = TxtDeInfoModel;

    open spec fn view(&self) -> TxtDeInfoModel {
        TxtDeInfoModel {
            languages: self.languages@,
            add_language_names: self.add_language_names,
            count: self.count as int,
            info: self.info@,
        }
    }
}

/// The selected languages in ascending code order, from code `l` up.
pub open spec fn sorted_langs(langs: Seq<Language>, l: int) -> Seq<Language>
    decreases 21 - l,
    when 0 <= l <= 21
{
    if l >= 21 {
        Seq::empty()
    } else if selected(langs, l) {
        seq![Language::spec_from_code(l)] + sorted_langs(langs, l + 1)
    } else {
        sorted_langs(langs, l + 1)
    }
}

/// The `"<Language>:: "` prefix bytes of a line.
pub open spec fn prefix_bytes(lang: Language) -> Seq<u8> {
    vstd::utf8::encode_utf8(lang.spec_name()) + vstd::utf8::encode_utf8(":: "@)
}

/// One physical line: the text, prefixed with its language name when
/// name embedding is on.
pub open spec fn spec_line(add: bool, lang: Language, t: Seq<u8>) -> Seq<u8> {
    if add {
        prefix_bytes(lang) + t
    } else {
        t
    }
}

/// The lines of a string-per-language resource, one per selected
/// language.
pub open spec fn loc_lines(ss: Seq<Seq<u8>>, langs: Seq<Language>, add: bool) -> Seq<Seq<u8>> {
    langs.map_values(|lang: Language| spec_line(add, lang, ss[lang.spec_code()]))
}

/// The lines of one language of a line-list resource.
pub open spec fn lang_lines(ts: Seq<Seq<Seq<u8>>>, lang: Language, add: bool) -> Seq<Seq<u8>> {
    ts[lang.spec_code()].map_values(|t: Seq<u8>| spec_line(add, lang, t))
}

/// The lines of a line-list resource, language by language.
pub open spec fn cut_lines(ts: Seq<Seq<Seq<u8>>>, langs: Seq<Language>, add: bool) -> Seq<Seq<u8>>
    decreases langs.len(),
{
    if langs.len() == 0 {
        Seq::empty()
    } else {
        lang_lines(ts, langs[0], add) + cut_lines(ts, langs.skip(1), add)
    }
}

/// The lines one resource contributes.
pub open spec fn local_lines(l: LocalResourceModel, langs: Seq<Language>, add: bool) -> Seq<
    Seq<u8>,
> {
    match l.variant {
        LocalModel::Localized(ss) => loc_lines(ss, langs, add),
        LocalModel::Cutscene(ts) => cut_lines(ts, langs, add),
    }
}

/// Every line of an export, resource by resource.
pub open spec fn all_lines(ls: Seq<LocalResourceModel>, langs: Seq<Language>, add: bool) -> Seq<
    Seq<u8>,
>
    decreases ls.len(),
{
    if ls.len() == 0 {
        Seq::empty()
    } else {
        local_lines(ls[0], langs, add) + all_lines(ls.skip(1), langs, add)
    }
}

/// The kind tag of a resource.
pub open spec fn txt_kind_of(l: LocalResourceModel) -> TxtLocalVariants {
    match l.variant {
        LocalModel::Localized(_) => TxtLocalVariants::Localized,
        LocalModel::Cutscene(_) => TxtLocalVariants::Cutscene,
    }
}

/// The envelope entries of an export, with `c` lines already written.
pub open spec fn infos_of(
    ls: Seq<LocalResourceModel>,
    langs: Seq<Language>,
    add: bool,
    c: int,
) -> Seq<TxtLocalInfo>
    decreases ls.len(),
{
    if ls.len() == 0 {
        Seq::empty()
    } else {
        let n = local_lines(ls[0], langs, add).len();
        seq![
            TxtLocalInfo {
                index: ls[0].index as usize,
                start: c as usize,
                end: (c + n) as usize,
                variant: txt_kind_of(ls[0]),
            },
        ] + infos_of(ls.skip(1), langs, add, c + n)
    }
}

/// Builds one physical line.
fn make_line(add: bool, lang: Language, t: &Vec<u8>) -> (r: Vec<u8>)
    ensures
        r@ == spec_line(add, lang, t@),
{
    let mut out: Vec<u8> = Vec::new();
    if add {
        let name = lang.name();
        let mut nb = vstd::slice::slice_to_vec(name.as_bytes());
        out.append(&mut nb);
        let mut sep = vstd::slice::slice_to_vec(":: ".as_bytes());
        out.append(&mut sep);
    }
    crate::wire::copy_bytes(&mut out, t, 0, t.len());
    proof {
        assert(t@.subrange(0, t@.len() as int) =~= t@);
        assert(out@ =~= spec_line(add, lang, t@));
    }
    out
}

/// The selected languages, ascending.
fn sorted_langs_exec(languages: &Vec<Language>) -> (r: Vec<Language>)
    ensures
        r@ == sorted_langs(languages@, 0),
        forall|j: int| 0 <= j < r@.len() ==> (#[trigger] r@[j]).spec_code() < 21,
{
    let mut out: Vec<Language> = Vec::new();
    let mut l: usize = 0;
    proof {
        assert(Seq::<Language>::empty() + sorted_langs(languages@, 0) =~= sorted_langs(
            languages@,
            0,
        ));
    }
    while l < 21
        invariant
            l <= 21,
            sorted_langs(languages@, 0) == out@ + sorted_langs(languages@, l as int),
            forall|j: int| 0 <= j < out@.len() ==> (#[trigger] out@[j]).spec_code() < 21,
        decreases 21 - l,
    {
        if lang_selected(languages, l) {
            let lang = Language::from_code(l);
            proof {
                crate::hzd::lemma_from_code_matches_spec(l as int);
                crate::hzd::lemma_lang_code_injective(lang, Language::spec_from_code(l as int));
                assert(out@ + (seq![lang] + sorted_langs(languages@, l + 1)) =~= (out@
                    + seq![lang]) + sorted_langs(languages@, l + 1));
            }
            out.push(lang);
        } else {
            proof {
                assert(sorted_langs(languages@, l as int) == sorted_langs(languages@, l + 1));
            }
        }
        l = l + 1;
    }
    proof {
        assert(out@ + Seq::<Language>::empty() =~= out@);
    }
    out
}

impl HZDLocal {
    /// Serializes the selected languages of every resource to a flat,
    /// ordered list of lines plus the reconstruction envelope: one line
    /// per string, languages ascending, and per resource a recorded
    /// index, line range and kind.
    pub fn internal_serialize_to_lines(
        &self,
        languages: &Vec<Language>,
        add_language_names: bool,
    ) -> (r: (Vec<Vec<u8>>, TxtDeInfo))
        requires
            self.wf(),
        ensures
            ({
                let langs = sorted_langs(languages@, 0);
                let ls = spec_get_locals(self@, 0);
                &&& bytes_views(r.0@) == all_lines(ls, langs, add_language_names)
                &&& r.1@.languages == langs
                &&& r.1@.add_language_names == add_language_names
                &&& r.1@.count == all_lines(ls, langs, add_language_names).len()
                &&& r.1@.info == infos_of(ls, langs, add_language_names, 0)
            }),
    {
        let sel = sorted_langs_exec(languages);
        let ghost langs = sorted_langs(languages@, 0);
        let locals = self.get_locals();
        let ghost lv = locals_views(locals@);
        let add = add_language_names;
        let mut lines: Vec<Vec<u8>> = Vec::new();
        let mut info: Vec<TxtLocalInfo> = Vec::new();
        let mut i: usize = 0;
        proof {
            assert(lv.skip(0) =~= lv);
            assert(Seq::<Seq<u8>>::empty() + all_lines(lv, langs, add) =~= all_lines(
                lv,
                langs,
                add,
            ));
            assert(Seq::<TxtLocalInfo>::empty() + infos_of(lv, langs, add, 0) =~= infos_of(
                lv,
                langs,
                add,
                0,
            ));
        }
        while i < locals.len()
            invariant
                i <= locals@.len(),
                sel@ == langs,
                lv == locals_views(locals@),
                forall|j: int|
                    0 <= j < locals@.len() ==> crate::hzd::local::local_wf(
                        #[trigger] locals@[j],
                    ),
                forall|j: int| 0 <= j < langs.len() ==> (#[trigger] langs[j]).spec_code() < 21,
                all_lines(lv, langs, add) == bytes_views(lines@) + all_lines(
                    lv.skip(i as int),
                    langs,
                    add,
                ),
                infos_of(lv, langs, add, 0) == info@ + infos_of(
                    lv.skip(i as int),
                    langs,
                    add,
                    lines@.len() as int,
                ),
            decreases locals@.len() - i,
        {
            proof {
                assert(lv.skip(i as int)[0] == lv[i as int]);
                assert(lv.skip(i as int).skip(1) =~= lv.skip(i + 1));
                assert(lv[i as int] == locals@[i as int]@);
            }
            let lr = &locals[i];
            let start = lines.len();
            let kind: TxtLocalVariants = match &lr.variant {
                LocalVariants::Localized(texts) => {
                    let ghost ss = bytes_views(texts@);
                    let mut k: usize = 0;
                    let ghost base = bytes_views(lines@);
                    while k < sel.len()
                        invariant
                            k <= sel@.len(),
                            sel@ == langs,
                            texts.wf(),
                            ss == bytes_views(texts@),
                            ss.len() == 21,
                            forall|j: int|
                                0 <= j < langs.len() ==> (#[trigger] langs[j]).spec_code() < 21,
                            base == bytes_views(lines@).subrange(
                                0,
                                base.len() as int,
                            ),
                            bytes_views(lines@).len() == base.len() + k,
                            forall|j: int|
                                0 <= j < k ==> bytes_views(lines@)[base.len() + j]
                                    == #[trigger] loc_lines(ss, langs, add)[j],
                        decreases sel@.len() - k,
                    {
                        let lang = sel[k];
                        let t = texts.get_at(lang.code());
                        let line = make_line(add, lang, t);
                        let ghost pre = bytes_views(lines@);
                        lines.push(line);
                        proof {
                            assert(bytes_views(lines@) =~= pre + seq![line@]);
                            assert(ss[langs[k as int].spec_code()] == texts@[langs[
                                k as int].spec_code()]@);
                            assert(loc_lines(ss, langs, add)[k as int] == spec_line(
                                add,
                                langs[k as int],
                                ss[langs[k as int].spec_code()],
                            ));
                            assert(pre.subrange(0, base.len() as int) =~= base);
                            assert forall|j: int|
                                0 <= j < k + 1 implies bytes_views(lines@)[base.len() + j]
                                    == #[trigger] loc_lines(ss, langs, add)[j] by {
                                if j < k {
                                    assert(bytes_views(lines@)[base.len() + j] == pre[base.len()
                                        + j]);
                                } else {
                                    assert(bytes_views(lines@)[base.len() + j] == line@);
                                }
                            }
                        }
                        k = k + 1;
                    }
                    TxtLocalVariants::Localized
                },
                LocalVariants::Cutscene(texts) => {
                    let ghost ts = list_views(texts@);
                    let ghost base = bytes_views(lines@);
                    let mut k: usize = 0;
                    proof {
                        assert(langs.skip(0) =~= langs);
                        assert(base + cut_lines(ts, langs, add) =~= base + cut_lines(
                            ts,
                            langs.skip(0),
                            add,
                        ));
                    }
                    while k < sel.len()
                        invariant
                            k <= sel@.len(),
                            sel@ == langs,
                            texts.wf(),
                            ts == list_views(texts@),
                            forall|j: int|
                                0 <= j < langs.len() ==> (#[trigger] langs[j]).spec_code() < 21,
                            base + cut_lines(ts, langs, add) == bytes_views(lines@) + cut_lines(
                                ts,
                                langs.skip(k as int),
                                add,
                            ),
                        decreases sel@.len() - k,
                    {
                        proof {
                            assert(langs.skip(k as int)[0] == langs[k as int]);
                            assert(langs.skip(k as int).skip(1) =~= langs.skip(k + 1));
                        }
                        let lang = sel[k];
                        let tl = texts.get_at(lang.code());
                        let ghost lseq = lang_lines(ts, langs[k as int], add);
                        let ghost base2 = bytes_views(lines@);
                        let mut q: usize = 0;
                        proof {
                            assert(ts[langs[k as int].spec_code()] == bytes_views(texts@[langs[
                                k as int].spec_code()]@));
                        }
                        while q < tl.len()
                            invariant
                                q <= tl@.len(),
                                ts.len() == 21,
                                0 <= k < langs.len(),
                                langs[k as int].spec_code() < 21,
                                lang == langs[k as int],
                                ts[langs[k as int].spec_code()] == bytes_views(tl@),
                                lseq == lang_lines(ts, langs[k as int], add),
                                bytes_views(lines@).len() == base2.len() + q,
                                base2 == bytes_views(lines@).subrange(0, base2.len() as int),
                                forall|j: int|
                                    0 <= j < q ==> bytes_views(lines@)[base2.len() + j]
                                        == #[trigger] lseq[j],
                            decreases tl@.len() - q,
                        {
                            let line = make_line(add, lang, &tl[q]);
                            let ghost pre = bytes_views(lines@);
                            lines.push(line);
                            proof {
                                assert(bytes_views(lines@) =~= pre + seq![line@]);
                                assert(bytes_views(tl@)[q as int] == tl@[q as int]@);
                                assert(lseq[q as int] == spec_line(
                                    add,
                                    langs[k as int],
                                    ts[langs[k as int].spec_code()][q as int],
                                ));
                                assert(pre.subrange(0, base2.len() as int) =~= base2);
                                assert forall|j: int|
                                    0 <= j < q + 1 implies bytes_views(lines@)[base2.len() + j]
                                        == #[trigger] lseq[j] by {
                                    if j < q {
                                        assert(bytes_views(lines@)[base2.len() + j] == pre[
                                            base2.len() + j]);
                                    } else {
                                        assert(bytes_views(lines@)[base2.len() + j] == line@);
                                    }
                                }
                            }
                            q = q + 1;
                        }
                        proof {
                            assert(bytes_views(lines@) =~= base2 + lseq);
                            assert((base2 + lseq) + cut_lines(ts, langs.skip(k + 1), add)
                                =~= base2 + (lseq + cut_lines(ts, langs.skip(k + 1), add)));
                        }
                        k = k + 1;
                    }
                    proof {
                        assert(langs.skip(k as int) =~= Seq::<Language>::empty());
                        assert(bytes_views(lines@) + Seq::<Seq<u8>>::empty() =~= bytes_views(
                            lines@,
                        ));
                    }
                    TxtLocalVariants::Cutscene
                },
            };
            let end = lines.len();
            let entry = TxtLocalInfo { index: lr.index, start, end, variant: kind };
            let ghost prev_info = info@;
            info.push(entry);
            proof {
                let n = local_lines(lv[i as int], langs, add).len();
                assert(bytes_views(lines@) =~= bytes_views(lines@).subrange(
                    0,
                    start as int,
                ) + local_lines(lv[i as int], langs, add));
                assert(end == start + n);
                assert(entry == infos_of(lv.skip(i as int), langs, add, start as int)[0]);
                assert(info@ =~= prev_info + seq![entry]);
                assert(infos_of(lv.skip(i as int), langs, add, start as int) == seq![entry]
                    + infos_of(lv.skip(i + 1), langs, add, end as int));
                assert(prev_info + (seq![entry] + infos_of(lv.skip(i + 1), langs, add, end as int))
                    =~= (prev_info + seq![entry]) + infos_of(lv.skip(i + 1), langs, add, end as int));
                assert(all_lines(lv, langs, add) == bytes_views(lines@).subrange(0, start as int)
                    + (local_lines(lv[i as int], langs, add) + all_lines(
                    lv.skip(i + 1),
                    langs,
                    add,
                )));
                assert(bytes_views(lines@).subrange(0, start as int) + (local_lines(
                    lv[i as int],
                    langs,
                    add,
                ) + all_lines(lv.skip(i + 1), langs, add)) =~= bytes_views(lines@) + all_lines(
                    lv.skip(i + 1),
                    langs,
                    add,
                ));
            }
            i = i + 1;
        }
        proof {
            assert(lv.skip(i as int) =~= Seq::<LocalResourceModel>::empty());
            assert(bytes_views(lines@) + Seq::<Seq<u8>>::empty() =~= bytes_views(lines@));
            assert(info@ + Seq::<TxtLocalInfo>::empty() =~= info@);
        }
        let count = lines.len();
        let de = TxtDeInfo { languages: sel, add_language_names: add, count, info };
        (lines, de)
    }
}


// ------------------------------------------------------ line-list import

/// The resource kind a line-list entry claims.
pub open spec fn txt_kind(v: TxtLocalVariants) -> ResourceKind {
    match v {
        TxtLocalVariants::Localized => ResourceKind::Localized,
        TxtLocalVariants::Cutscene => ResourceKind::Cutscene,
    }
}

/// Strips the language-name prefix from an imported line, tolerating its
/// absence.  The prefix comes off only when what remains is valid UTF-8,
/// which embedding language names always guarantees.
pub open spec fn spec_strip(add: bool, lang: Language, line: Seq<u8>) -> Seq<u8> {
    let p = prefix_bytes(lang);
    if add && line.len() >= p.len() && line.subrange(0, p.len() as int) == p && valid_utf8(
        line.skip(p.len() as int),
    ) {
        line.skip(p.len() as int)
    } else {
        line
    }
}

/// Strips every line of a segment for one language.
pub open spec fn strip_map(add: bool, lang: Language, seg: Seq<Seq<u8>>) -> Seq<Seq<u8>> {
    seg.map_values(|t: Seq<u8>| spec_strip(add, lang, t))
}

/// Writes each language's line of a segment onto the string table, in
/// language order; a short segment updates only as many languages.
pub open spec fn overlay_lines_loc(
    ss: Seq<Seq<u8>>,
    langs: Seq<Language>,
    add: bool,
    seg: Seq<Seq<u8>>,
) -> Seq<Seq<u8>>
    decreases langs.len(),
{
    if langs.len() == 0 || seg.len() == 0 {
        ss
    } else {
        overlay_lines_loc(
            ss.update(langs[0].spec_code(), spec_strip(add, langs[0], seg[0])),
            langs.skip(1),
            add,
            seg.skip(1),
        )
    }
}

/// Writes each language's equal share of a segment onto the line-list
/// table, from language position `k` on.
pub open spec fn overlay_cut_rec(
    ts: Seq<Seq<Seq<u8>>>,
    langs: Seq<Language>,
    add: bool,
    seg: Seq<Seq<u8>>,
    per: int,
    k: int,
) -> Seq<Seq<Seq<u8>>>
    decreases langs.len() - k,
    when 0 <= k <= langs.len()
{
    if k >= langs.len() {
        ts
    } else {
        overlay_cut_rec(
            ts.update(
                langs[k].spec_code(),
                strip_map(add, langs[k], seg.subrange(k * per, (k + 1) * per)),
            ),
            langs,
            add,
            seg,
            per,
            k + 1,
        )
    }
}

/// Divides a segment evenly among the languages and writes each share
/// onto the line-list table; a segment shorter than the language count
/// updates nothing.
pub open spec fn overlay_lines_cut(
    ts: Seq<Seq<Seq<u8>>>,
    langs: Seq<Language>,
    add: bool,
    seg: Seq<Seq<u8>>,
) -> Seq<Seq<Seq<u8>>> {
    if langs.len() == 0 {
        ts
    } else {
        let per = seg.len() as int / langs.len() as int;
        if per == 0 {
            ts
        } else {
            overlay_cut_rec(ts, langs, add, seg, per, 0)
        }
    }
}

/// The resource updates a line-list import stands for, from envelope
/// entry `i` on.
pub open spec fn spec_lines_locals(
    cs: Seq<ChunkModel>,
    lines: Seq<Seq<u8>>,
    de: TxtDeInfoModel,
    i: int,
) -> Result<Seq<LocalResourceModel>, HZDError>
    decreases de.info.len() - i,
    when 0 <= i <= de.info.len()
{
    if i >= de.info.len() {
        Ok(Seq::empty())
    } else {
        let inf = de.info[i];
        if inf.index >= cs.len() {
            Err(HZDError::InvalidLocalResourceIdx { max: cs.len() as usize, got: inf.index })
        } else if !(inf.start <= inf.end && inf.end <= lines.len()) {
            Err(HZDError::InvalidIndex { max: lines.len() as usize, invalid_index: inf.index })
        } else {
            let seg = lines.subrange(inf.start as int, inf.end as int);
            let step: Result<LocalResourceModel, HZDError> = match (
                inf.variant,
                cs[inf.index as int].variant,
            ) {
                (TxtLocalVariants::Localized, VariantModel::Localized(m)) => Ok(
                    LocalResourceModel {
                        index: inf.index as int,
                        variant: LocalModel::Localized(
                            overlay_lines_loc(
                                m.strings,
                                de.languages,
                                de.add_language_names,
                                seg,
                            ),
                        ),
                    },
                ),
                (TxtLocalVariants::Cutscene, VariantModel::Cutscene(m)) => Ok(
                    LocalResourceModel {
                        index: inf.index as int,
                        variant: LocalModel::Cutscene(
                            overlay_lines_cut(
                                cutscene_texts(m),
                                de.languages,
                                de.add_language_names,
                                seg,
                            ),
                        ),
                    },
                ),
                (tv, cv) => Err(
                    HZDError::ResourceNotMatchAtIdx {
                        input: txt_kind(tv),
                        original: crate::hzd::local::kind_of_variant(cv),
                    },
                ),
            };
            match step {
                Err(e) => Err(e),
                Ok(l) => match spec_lines_locals(cs, lines, de, i + 1) {
                    Err(e) => Err(e),
                    Ok(rest) => Ok(seq![l] + rest),
                },
            }
        }
    }
}

/// The whole line-list import: the literal line count must equal the
/// envelope's recorded count, or it fails before anything is touched.
pub open spec fn spec_import_lines(
    cs: Seq<ChunkModel>,
    lines: Seq<Seq<u8>>,
    de: TxtDeInfoModel,
) -> Result<Seq<LocalResourceModel>, HZDError> {
    if lines.len() != de.count {
        Err(
            HZDError::LineCountDoesntMatchWithInput {
                expected: de.count as usize,
                got: lines.len() as usize,
            },
        )
    } else {
        spec_lines_locals(cs, lines, de, 0)
    }
}

/// Strips the language-name prefix from one line.
fn strip_line(add: bool, lang: Language, line: &Vec<u8>) -> (r: Vec<u8>)
    ensures
        r@ == spec_strip(add, lang, line@),
        valid_utf8(line@) ==> valid_utf8(r@),
{
    let copy_whole = take_bytes(line, 0, line.len());
    proof {
        assert(copy_whole@ =~= line@);
    }
    if !add {
        return copy_whole;
    }
    let name = lang.name();
    let mut pvec = vstd::slice::slice_to_vec(name.as_bytes());
    let mut sep = vstd::slice::slice_to_vec(":: ".as_bytes());
    pvec.append(&mut sep);
    proof {
        assert(pvec@ =~= prefix_bytes(lang));
    }
    let plen = pvec.len();
    if line.len() >= plen {
        let head = take_bytes(line, 0, plen);
        if crate::wire::vec_u8_eq(&head, &pvec) {
            let rest = take_bytes(line, plen, line.len() - plen);
            proof {
                assert(rest@ =~= line@.skip(plen as int));
            }
            if crate::utf16::utf8_check(&rest) {
                return rest;
            }
        }
    }
    copy_whole
}

/// Overlays a line segment onto a copied string table, one line per
/// language in order.
fn overlay_lines_loc_exec(
    base: LangMap<Vec<u8>>,
    langs: &Vec<Language>,
    add: bool,
    lines: &Vec<Vec<u8>>,
    start: usize,
    end: usize,
) -> (r: LangMap<Vec<u8>>)
    requires
        base.wf(),
        start <= end <= lines@.len(),
    ensures
        r.wf(),
        bytes_views(r@) == overlay_lines_loc(
            bytes_views(base@),
            langs@,
            add,
            bytes_views(lines@).subrange(start as int, end as int),
        ),
{
    let ghost b0 = bytes_views(base@);
    let ghost seg = bytes_views(lines@).subrange(start as int, end as int);
    let mut cur = base;
    let mut k: usize = 0;
    proof {
        assert(langs@.skip(0) =~= langs@);
        assert(seg.skip(0) =~= seg);
    }
    while k < langs.len() && start + k < end
        invariant
            k <= langs@.len(),
            start + k <= end <= lines@.len(),
            seg == bytes_views(lines@).subrange(start as int, end as int),
            cur.wf(),
            overlay_lines_loc(b0, langs@, add, seg) == overlay_lines_loc(
                bytes_views(cur@),
                langs@.skip(k as int),
                add,
                seg.skip(k as int),
            ),
        decreases langs@.len() - k,
    {
        proof {
            assert(langs@.skip(k as int)[0] == langs@[k as int]);
            assert(langs@.skip(k as int).skip(1) =~= langs@.skip(k + 1));
            assert(seg.skip(k as int)[0] == seg[k as int]);
            assert(seg.skip(k as int).skip(1) =~= seg.skip(k + 1));
            assert(seg[k as int] == bytes_views(lines@)[start + k]);
            assert(bytes_views(lines@)[start + k] == lines@[start + k]@);
        }
        let lang = langs[k];
        let stripped = strip_line(add, lang, &lines[start + k]);
        let c = lang.code();
        let ghost pre = bytes_views(cur@);
        cur.set_at(c, stripped);
        proof {
            assert(bytes_views(cur@) =~= pre.update(c as int, stripped@));
            assert(overlay_lines_loc(pre, langs@.skip(k as int), add, seg.skip(k as int))
                == overlay_lines_loc(
                pre.update(langs@[k as int].spec_code(), spec_strip(
                    add,
                    langs@[k as int],
                    seg[k as int],
                )),
                langs@.skip(k + 1),
                add,
                seg.skip(k + 1),
            ));
            assert(pre.update(langs@[k as int].spec_code(), spec_strip(
                add,
                langs@[k as int],
                seg[k as int],
            )) == bytes_views(cur@));
        }
        k = k + 1;
    }
    proof {
        if k == langs@.len() {
            assert(langs@.skip(k as int) =~= Seq::<Language>::empty());
        } else {
            assert(start + k == end);
            assert(seg.skip(k as int) =~= Seq::<Seq<u8>>::empty());
        }
    }
    cur
}

/// Overlays a line segment onto a copied line-list table, an equal share
/// per language; keeps every text valid UTF-8 when the inputs are.
fn overlay_lines_cut_exec(
    base: LangMap<Vec<Vec<u8>>>,
    langs: &Vec<Language>,
    add: bool,
    lines: &Vec<Vec<u8>>,
    start: usize,
    end: usize,
) -> (r: LangMap<Vec<Vec<u8>>>)
    requires
        base.wf(),
        start <= end <= lines@.len(),
    ensures
        r.wf(),
        list_views(r@) == overlay_lines_cut(
            list_views(base@),
            langs@,
            add,
            bytes_views(lines@).subrange(start as int, end as int),
        ),
        (forall|a: int, b: int|
            0 <= a < list_views(base@).len() && 0 <= b < list_views(base@)[a].len() ==> valid_utf8(
                #[trigger] list_views(base@)[a][b],
            )) && (forall|j: int|
            start <= j < end ==> valid_utf8(#[trigger] lines@[j]@)) ==> (forall|a: int, b: int|
            0 <= a < list_views(r@).len() && 0 <= b < list_views(r@)[a].len() ==> valid_utf8(
                #[trigger] list_views(r@)[a][b],
            )),
{
    let ghost t0 = list_views(base@);
    let ghost seg = bytes_views(lines@).subrange(start as int, end as int);
    let ghost inputs_ok = (forall|a: int, b: int|
        0 <= a < t0.len() && 0 <= b < t0[a].len() ==> valid_utf8(#[trigger] t0[a][b])) && (forall|
        j: int,
    |
        start <= j < end ==> valid_utf8(#[trigger] lines@[j]@));
    let nlangs = langs.len();
    if nlangs == 0 {
        return base;
    }
    let seglen = end - start;
    let per = seglen / nlangs;
    if per == 0 {
        return base;
    }
    proof {
        assert(per == seg.len() as int / langs@.len() as int);
        assert(nlangs * per <= seglen) by (nonlinear_arith)
            requires
                nlangs > 0 && per == seglen / nlangs,
        ;
    }
    let mut cur = base;
    let mut k: usize = 0;
    while k < nlangs
        invariant
            k <= nlangs == langs@.len(),
            per >= 1,
            nlangs * per <= seglen == end - start,
            start <= end <= lines@.len(),
            seg == bytes_views(lines@).subrange(start as int, end as int),
            t0 == list_views(base@),
            inputs_ok == ((forall|a: int, b: int|
                0 <= a < t0.len() && 0 <= b < t0[a].len() ==> valid_utf8(
                    #[trigger] t0[a][b],
                )) && (forall|j: int|
                start <= j < end ==> valid_utf8(#[trigger] lines@[j]@))),
            cur.wf(),
            overlay_cut_rec(t0, langs@, add, seg, per as int, 0) == overlay_cut_rec(
                list_views(cur@),
                langs@,
                add,
                seg,
                per as int,
                k as int,
            ),
            inputs_ok ==> (forall|a: int, b: int|
                0 <= a < list_views(cur@).len() && 0 <= b < list_views(cur@)[a].len()
                    ==> valid_utf8(#[trigger] list_views(cur@)[a][b])),
        decreases nlangs - k,
    {
        proof {
            assert((k + 1) * per <= nlangs * per) by (nonlinear_arith)
                requires
                    k + 1 <= nlangs && per >= 1,
            ;
            assert(k * per < (k + 1) * per) by (nonlinear_arith)
                requires
                    per >= 1,
            ;
            assert((k + 1) * per == k * per + per) by (nonlinear_arith);
        }
        let lang = langs[k];
        let sub_start = start + k * per;
        let sub_end = start + (k + 1) * per;
        let mut list: Vec<Vec<u8>> = Vec::new();
        let mut q: usize = 0;
        while q < per
            invariant
                q <= per,
                sub_start == start + k * per,
                sub_end == start + (k + 1) * per,
                sub_start + per == sub_end,
                start <= sub_start,
                sub_end <= end <= lines@.len(),
                lang == langs@[k as int],
                k < langs@.len(),
                seg == bytes_views(lines@).subrange(start as int, end as int),
                list@.len() == q,
                forall|j: int|
                    0 <= j < q ==> (#[trigger] bytes_views(list@)[j]) == strip_map(
                        add,
                        langs@[k as int],
                        seg.subrange((k * per) as int, (k * per + per) as int),
                    )[j],
            decreases per - q,
        {
            let stripped = strip_line(add, lang, &lines[sub_start + q]);
            let ghost pre = list@;
            list.push(stripped);
            proof {
                let sub = seg.subrange((k * per) as int, (k * per + per) as int);
                assert(sub[q as int] == seg[k * per + q]);
                assert(seg[k * per + q] == bytes_views(lines@)[start + k * per + q]);
                assert(bytes_views(lines@)[start + k * per + q] == lines@[sub_start + q]@);
                assert forall|j: int|
                    0 <= j < q + 1 implies (#[trigger] bytes_views(list@)[j]) == strip_map(
                    add,
                    langs@[k as int],
                    sub,
                )[j] by {
                    assert(bytes_views(list@)[j] == list@[j]@);
                    if j < q {
                        assert(list@[j] == pre[j]);
                        assert(bytes_views(pre)[j] == pre[j]@);
                    } else {
                        assert(list@[j] == stripped);
                        assert(strip_map(add, langs@[k as int], sub)[j] == spec_strip(
                            add,
                            langs@[k as int],
                            sub[j],
                        ));
                    }
                }
            }
            q = q + 1;
        }
        let c = lang.code();
        let ghost pre = list_views(cur@);
        let ghost lv2 = bytes_views(list@);
        cur.set_at(c, list);
        proof {
            let sub = seg.subrange((k * per) as int, (k * per + per) as int);
            assert(lv2 =~= strip_map(add, langs@[k as int], sub));
            assert(list_views(cur@) =~= pre.update(c as int, strip_map(
                add,
                langs@[k as int],
                sub,
            )));
            assert((k * per + per) as int == (k + 1) * per);
            assert(overlay_cut_rec(pre, langs@, add, seg, per as int, k as int)
                == overlay_cut_rec(
                pre.update(langs@[k as int].spec_code(), strip_map(
                    add,
                    langs@[k as int],
                    seg.subrange((k * per) as int, ((k + 1) * per) as int),
                )),
                langs@,
                add,
                seg,
                per as int,
                k + 1,
            ));
            assert(pre.update(langs@[k as int].spec_code(), strip_map(
                add,
                langs@[k as int],
                seg.subrange((k * per) as int, ((k + 1) * per) as int),
            )) == list_views(cur@));
            if inputs_ok {
                assert forall|a: int, b: int|
                    0 <= a < list_views(cur@).len() && 0 <= b < list_views(cur@)[a].len()
                        implies valid_utf8(#[trigger] list_views(cur@)[a][b]) by {
                    if a == c as int {
                        assert(list_views(cur@)[a] == strip_map(add, langs@[k as int], sub));
                        assert(list_views(cur@)[a][b] == spec_strip(
                            add,
                            langs@[k as int],
                            sub[b],
                        ));
                        assert(sub[b] == seg[k * per + b]);
                        assert(seg[k * per + b] == lines@[start + k * per + b]@);
                        assert(valid_utf8(lines@[start + k * per + b]@));
                        if spec_strip(add, langs@[k as int], sub[b]) != sub[b] {
                            assert(valid_utf8(spec_strip(add, langs@[k as int], sub[b])));
                        }
                    } else {
                        assert(list_views(cur@)[a] == pre[a]);
                    }
                }
            }
        }
        k = k + 1;
    }
    proof {
        assert(overlay_cut_rec(list_views(cur@), langs@, add, seg, per as int, k as int)
            == list_views(cur@));
    }
    cur
}


impl HZDLocal {
    /// Applies a line-list import back onto the container, strictly by
    /// the envelope's recorded ranges.  A line count different from the
    /// envelope's fails before any resource is touched; so does the
    /// first entry naming a bad index, a bad range or the wrong kind.
    pub fn internal_deserialize_and_update_from_lines(
        &mut self,
        lines: &Vec<Vec<u8>>,
        deinfo: TxtDeInfo,
    ) -> (r: Result<(), HZDError>)
        requires
            old(self).wf(),
            forall|j: int| 0 <= j < lines@.len() ==> valid_utf8((#[trigger] lines@[j])@),
        ensures
            final(self).wf(),
            match spec_import_lines(old(self)@, bytes_views(lines@), deinfo@) {
                Err(e0) => r == Err::<(), HZDError>(e0) && final(self)@ == old(self)@,
                Ok(ls) => match r {
                    Ok(_) => spec_update_locals(old(self)@, ls) == Ok::<_, HZDError>(
                        final(self)@,
                    ),
                    Err(e) => spec_update_locals(old(self)@, ls) == Err::<Seq<ChunkModel>, _>(e),
                },
            },
    {
        let ghost lsv = bytes_views(lines@);
        let ghost cs = old(self)@;
        let ghost de = deinfo@;
        if lines.len() != deinfo.count {
            return Err(
                HZDError::LineCountDoesntMatchWithInput {
                    expected: deinfo.count,
                    got: lines.len(),
                },
            );
        }
        let mut locals: Vec<LocalResource> = Vec::new();
        let mut i: usize = 0;
        proof {
            if spec_lines_locals(cs, lsv, de, 0) is Ok {
                let rest = spec_lines_locals(cs, lsv, de, 0)->Ok_0;
                assert(Seq::<LocalResourceModel>::empty() + rest =~= rest);
            }
        }
        while i < deinfo.info.len()
            invariant
                i <= deinfo.info@.len(),
                lsv == bytes_views(lines@),
                lsv.len() == de.count,
                cs == old(self)@,
                de == deinfo@,
                self@ == old(self)@,
                self.wf(),
                forall|j: int| 0 <= j < lines@.len() ==> valid_utf8((#[trigger] lines@[j])@),
                locals@.len() == i,
                forall|j: int|
                    0 <= j < i ==> crate::hzd::local::local_wf(#[trigger] locals@[j]),
                forall|j: int|
                    0 <= j < i ==> crate::hzd::local::local_input_ok((#[trigger] locals@[j])@),
                match spec_lines_locals(cs, lsv, de, i as int) {
                    Ok(rest) => spec_lines_locals(cs, lsv, de, 0) == Ok::<_, HZDError>(
                        locals_views(locals@) + rest,
                    ),
                    Err(e) => spec_lines_locals(cs, lsv, de, 0) == Err::<
                        Seq<LocalResourceModel>,
                        _,
                    >(e),
                },
            decreases deinfo.info@.len() - i,
        {
            let inf = deinfo.info[i];
            proof {
                assert(de.info[i as int] == inf);
            }
            if inf.index >= self.chunks.len() {
                return Err(
                    HZDError::InvalidLocalResourceIdx {
                        max: self.chunks.len(),
                        got: inf.index,
                    },
                );
            }
            if !(inf.start <= inf.end && inf.end <= lines.len()) {
                return Err(
                    HZDError::InvalidIndex { max: lines.len(), invalid_index: inf.index },
                );
            }
            proof {
                assert(cs[inf.index as int] == self.chunks@[inf.index as int]@);
                assert(crate::hzd::structures::wf_chunk(cs[inf.index as int]));
                assert(lsv.subrange(inf.start as int, inf.end as int).len() == inf.end
                    - inf.start);
            }
            let built: LocalResource = match (&inf.variant, &self.chunks[inf.index].variant) {
                (TxtLocalVariants::Localized, ChunkVariants::Localized(loc)) => {
                    let base = crate::hzd::local::localized_texts(loc);
                    let overlaid = overlay_lines_loc_exec(
                        base,
                        &deinfo.languages,
                        deinfo.add_language_names,
                        lines,
                        inf.start,
                        inf.end,
                    );
                    LocalResource {
                        index: inf.index,
                        variant: LocalVariants::Localized(overlaid),
                    }
                },
                (TxtLocalVariants::Cutscene, ChunkVariants::Cutscene(cut)) => {
                    let base = crate::hzd::local::cutscene_texts_exec(cut);
                    proof {
                        assert forall|a: int, b: int|
                            0 <= a < list_views(base@).len() && 0 <= b < list_views(
                                base@,
                            )[a].len() implies valid_utf8(
                            #[trigger] list_views(base@)[a][b],
                        ) by {
                            let m = cs[inf.index as int].variant->Cutscene_0;
                            assert(list_views(base@)[a] == cutscene_texts(m)[a]);
                            assert(cutscene_texts(m)[a] == crate::hzd::local::entry_texts(
                                crate::hzd::local::lang_entries(m.groups, a),
                            ));
                            let es = crate::hzd::local::lang_entries(m.groups, a);
                            assert(crate::hzd::local::entry_texts(es)[b]
                                == vstd::utf8::encode_utf8(crate::utf16::utf16_decode(
                                es[b].units,
                            )));
                            vstd::utf8::encode_utf8_valid_utf8(crate::utf16::utf16_decode(
                                es[b].units,
                            ));
                        }
                    }
                    let overlaid = overlay_lines_cut_exec(
                        base,
                        &deinfo.languages,
                        deinfo.add_language_names,
                        lines,
                        inf.start,
                        inf.end,
                    );
                    LocalResource {
                        index: inf.index,
                        variant: LocalVariants::Cutscene(overlaid),
                    }
                },
                (tv, cv) => {
                    let input = match tv {
                        TxtLocalVariants::Localized => ResourceKind::Localized,
                        TxtLocalVariants::Cutscene => ResourceKind::Cutscene,
                    };
                    let original = match cv {
                        ChunkVariants::Localized(_) => ResourceKind::Localized,
                        ChunkVariants::Cutscene(_) => ResourceKind::Cutscene,
                        ChunkVariants::Others { .. } => ResourceKind::Others,
                    };
                    return Err(HZDError::ResourceNotMatchAtIdx { input, original });
                },
            };
            let ghost prev = locals_views(locals@);
            locals.push(built);
            proof {
                assert(locals_views(locals@) =~= prev + seq![built@]);
                if spec_lines_locals(cs, lsv, de, i + 1) is Ok {
                    let rest = spec_lines_locals(cs, lsv, de, i + 1)->Ok_0;
                    assert(prev + (seq![built@] + rest) =~= (prev + seq![built@]) + rest);
                }
            }
            i = i + 1;
        }
        proof {
            assert(locals_views(locals@) + Seq::<LocalResourceModel>::empty() =~= locals_views(
                locals@,
            ));
        }
        self.update_locals(locals)
    }
}

} // verus!
