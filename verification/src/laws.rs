//! The laws the library states about itself, proved once and for all:
//! extracting a container's resources and applying them back unchanged
//! leaves the container identical, and so does a whole structured-document
//! export followed by an unedited import.  Together with the decode/encode
//! round-trip lemmas of the two structure modules, these give the
//! byte-identity of an unedited export/import cycle.

use crate::hzd::local as hl;
use crate::hzd::serialize as hs;
use crate::hzd::structures as hst;
use crate::ds::local as dl;
use crate::ds::serialize as dse;
use crate::ds::structures as dst;
use crate::utf16::{lemma_utf16_encode_of_decode, utf16_decode};
use vstd::prelude::*;
use vstd::utf8::encode_utf8;

verus! {

// --------------------------------------------------------------- shared

/// Re-encoding an extracted text gives back the original code units.
proof fn lemma_conv_text_identity(units: Seq<u16>)
    requires
        crate::utf16::valid_utf16(units),
    ensures
        hl::conv_units(encode_utf8(utf16_decode(units))) == units,
{
    vstd::utf8::encode_utf8_decode_utf8(utf16_decode(units));
    lemma_utf16_encode_of_decode(units);
}

// ------------------------------------------------ update identity (HZD)

/// Applying one extracted resource back to its own chunk changes nothing.
proof fn lemma_hzd_apply_identity(cs: Seq<hst::ChunkModel>, i: int)
    requires
        hst::wf_chunks(cs),
        0 <= i < cs.len(),
        hl::local_of_chunk(cs[i], i) is Some,
    ensures
        hl::spec_apply_local(cs, hl::local_of_chunk(cs[i], i)->Some_0) == Ok::<
            _,
            crate::hzd::HZDError,
        >(cs),
{
    let l = hl::local_of_chunk(cs[i], i)->Some_0;
    match cs[i].variant {
        hst::VariantModel::Localized(m) => {
            hl::lemma_find_long_narrow_prefix(m.strings, m.strings.len() as int);
            let m2 = hl::spec_update_localized(m, m.strings)->Ok_0;
            assert(m2 == m);
            assert(cs.update(i, hst::ChunkModel { magic: cs[i].magic, variant: cs[i].variant })
                =~= cs);
        },
        hst::VariantModel::Cutscene(m) => {
            let texts = hl::cutscene_texts(m);
            lemma_hzd_cutscene_check_identity(m, texts, 0);
            let rgs = hl::spec_replace_groups(m.groups, texts);
            assert forall|j: int| 0 <= j < rgs.len() implies rgs[j] == m.groups[j] by {
                let g = m.groups[j];
                hl::lemma_lang_entries_unique(m.groups, j);
                assert(texts[g.code as int] == hl::entry_texts(g.entries));
                assert forall|k: int|
                    0 <= k < g.entries.len() implies rgs[j].entries[k] == g.entries[k] by {
                    assert(hl::entry_texts(g.entries)[k] == encode_utf8(utf16_decode(
                        g.entries[k].units,
                    )));
                    lemma_conv_text_identity(g.entries[k].units);
                }
                assert(rgs[j].entries =~= g.entries);
            }
            assert(rgs =~= m.groups);
            let m2 = hst::CutsceneModel { uuid: m.uuid, block: m.block, groups: rgs, tail: m.tail };
            assert(m2 == m);
            assert(cs.update(i, hst::ChunkModel { magic: cs[i].magic, variant: cs[i].variant })
                =~= cs);
        },
        hst::VariantModel::Others(_) => {
            assert(false);
        },
    }
}

/// A cutscene's own extracted texts pass every update check.
proof fn lemma_hzd_cutscene_check_identity(
    m: hst::CutsceneModel,
    texts: Seq<Seq<Seq<u8>>>,
    l: int,
)
    requires
        hst::wf_cutscene(m),
        texts == hl::cutscene_texts(m),
        0 <= l <= 21,
    ensures
        hl::spec_check_cutscene(m.groups, texts, l) is None,
    decreases 21 - l,
{
    if l < 21 {
        let es = hl::lang_entries(m.groups, l);
        assert(texts[l] == hl::entry_texts(es));
        assert forall|k: int|
            0 <= k < texts[l].len() implies hl::conv_units(#[trigger] texts[l][k]).len()
            <= 0xffff_ffff by {
            if hl::group_exists(m.groups, l) {
                let gi = choose|gi: int|
                    0 <= gi < m.groups.len() && (#[trigger] m.groups[gi]).code == l;
                assert(hst::wf_group(m.groups[gi]));
                assert(es == m.groups[gi].entries);
                assert(texts[l][k] == encode_utf8(utf16_decode(es[k].units)));
                lemma_conv_text_identity(es[k].units);
            }
        }
        lemma_hzd_find_long_units_none(texts[l], 0);
        lemma_hzd_cutscene_check_identity(m, texts, l + 1);
    }
}

/// A list of fitting texts has no over-long text.
proof fn lemma_hzd_find_long_units_none(ts: Seq<Seq<u8>>, k: int)
    requires
        0 <= k <= ts.len(),
        forall|j: int| 0 <= j < ts.len() ==> hl::conv_units(#[trigger] ts[j]).len() <= 0xffff_ffff,
    ensures
        hl::find_long_units(ts, k) is None,
    decreases ts.len() - k,
{
    if k < ts.len() {
        lemma_hzd_find_long_units_none(ts, k + 1);
    }
}

/// Every extracted resource names its own chunk and carries its content.
proof fn lemma_hzd_locals_sound(cs: Seq<hst::ChunkModel>, i: int)
    requires
        0 <= i <= cs.len(),
    ensures
        forall|j: int|
            0 <= j < hl::spec_get_locals(cs, i).len() ==> {
                let l = #[trigger] hl::spec_get_locals(cs, i)[j];
                0 <= l.index < cs.len() && hl::local_of_chunk(cs[l.index], l.index) == Some(l)
            },
    decreases cs.len() - i,
{
    if i < cs.len() {
        lemma_hzd_locals_sound(cs, i + 1);
        match hl::local_of_chunk(cs[i], i) {
            Some(l) => {
                assert forall|j: int|
                    0 <= j < hl::spec_get_locals(cs, i).len() implies {
                    let x = #[trigger] hl::spec_get_locals(cs, i)[j];
                    0 <= x.index < cs.len() && hl::local_of_chunk(cs[x.index], x.index) == Some(
                        x,
                    )
                } by {
                    if j > 0 {
                        assert(hl::spec_get_locals(cs, i)[j] == hl::spec_get_locals(cs, i + 1)[j
                            - 1]);
                    }
                }
            },
            None => {},
        }
    }
}

/// Applying everything `get_locals` returns changes nothing: the heart of
/// the unedited export/import round-trip.
pub proof fn lemma_hzd_update_identity(cs: Seq<hst::ChunkModel>, ls: Seq<hl::LocalResourceModel>)
    requires
        hst::wf_chunks(cs),
        forall|j: int|
            0 <= j < ls.len() ==> {
                let l = #[trigger] ls[j];
                0 <= l.index < cs.len() && hl::local_of_chunk(cs[l.index], l.index) == Some(l)
            },
    ensures
        hl::spec_update_locals(cs, ls) == Ok::<_, crate::hzd::HZDError>(cs),
    decreases ls.len(),
{
    if ls.len() > 0 {
        lemma_hzd_apply_identity(cs, ls[0].index);
        assert forall|j: int|
            0 <= j < ls.skip(1).len() implies {
            let l = #[trigger] ls.skip(1)[j];
            0 <= l.index < cs.len() && hl::local_of_chunk(cs[l.index], l.index) == Some(l)
        } by {
            assert(ls.skip(1)[j] == ls[j + 1]);
        }
        lemma_hzd_update_identity(cs, ls.skip(1));
    }
}

// ------------------------------------------------- document P2 (HZD)

/// Every document pair of a string table carries that table's own value.
proof fn lemma_hzd_doc_pairs_sub(ss: Seq<Seq<u8>>, langs: Seq<crate::hzd::Language>, l: int)
    requires
        0 <= l <= 21,
    ensures
        forall|j: int|
            0 <= j < hs::doc_pairs_loc(ss, langs, l).len() ==> {
                let p = #[trigger] hs::doc_pairs_loc(ss, langs, l)[j];
                0 <= p.0.spec_code() < 21 && p.1 == ss[p.0.spec_code()]
            },
    decreases 21 - l,
{
    if l < 21 {
        lemma_hzd_doc_pairs_sub(ss, langs, l + 1);
        if hs::selected(langs, l) {
            crate::hzd::lemma_from_code_matches_spec(l);
            assert forall|j: int|
                0 <= j < hs::doc_pairs_loc(ss, langs, l).len() implies {
                let p = #[trigger] hs::doc_pairs_loc(ss, langs, l)[j];
                0 <= p.0.spec_code() < 21 && p.1 == ss[p.0.spec_code()]
            } by {
                if j > 0 {
                    assert(hs::doc_pairs_loc(ss, langs, l)[j] == hs::doc_pairs_loc(
                        ss,
                        langs,
                        l + 1,
                    )[j - 1]);
                } else {
                    assert(hs::doc_pairs_loc(ss, langs, l)[0] == (crate::hzd::Language::spec_from_code(
                        l,
                    ), ss[l]));
                }
            }
        } else {
            assert forall|j: int|
                0 <= j < hs::doc_pairs_loc(ss, langs, l).len() implies {
                let p = #[trigger] hs::doc_pairs_loc(ss, langs, l)[j];
                0 <= p.0.spec_code() < 21 && p.1 == ss[p.0.spec_code()]
            } by {
                assert(hs::doc_pairs_loc(ss, langs, l)[j] == hs::doc_pairs_loc(
                    ss,
                    langs,
                    l + 1,
                )[j]);
            }
        }
    }
}

/// Every cutscene document pair carries the table's own list.
proof fn lemma_hzd_doc_pairs_cut_sub(
    ts: Seq<Seq<Seq<u8>>>,
    langs: Seq<crate::hzd::Language>,
    l: int,
)
    requires
        0 <= l <= 21,
    ensures
        forall|j: int|
            0 <= j < hs::doc_pairs_cut(ts, langs, l).len() ==> {
                let p = #[trigger] hs::doc_pairs_cut(ts, langs, l)[j];
                0 <= p.0.spec_code() < 21 && p.1 == ts[p.0.spec_code()]
            },
    decreases 21 - l,
{
    if l < 21 {
        lemma_hzd_doc_pairs_cut_sub(ts, langs, l + 1);
        if hs::selected(langs, l) {
            crate::hzd::lemma_from_code_matches_spec(l);
            assert forall|j: int|
                0 <= j < hs::doc_pairs_cut(ts, langs, l).len() implies {
                let p = #[trigger] hs::doc_pairs_cut(ts, langs, l)[j];
                0 <= p.0.spec_code() < 21 && p.1 == ts[p.0.spec_code()]
            } by {
                if j > 0 {
                    assert(hs::doc_pairs_cut(ts, langs, l)[j] == hs::doc_pairs_cut(
                        ts,
                        langs,
                        l + 1,
                    )[j - 1]);
                } else {
                    assert(hs::doc_pairs_cut(ts, langs, l)[0] == (
                        crate::hzd::Language::spec_from_code(l),
                        ts[l],
                    ));
                }
            }
        } else {
            assert forall|j: int|
                0 <= j < hs::doc_pairs_cut(ts, langs, l).len() implies {
                let p = #[trigger] hs::doc_pairs_cut(ts, langs, l)[j];
                0 <= p.0.spec_code() < 21 && p.1 == ts[p.0.spec_code()]
            } by {
                assert(hs::doc_pairs_cut(ts, langs, l)[j] == hs::doc_pairs_cut(
                    ts,
                    langs,
                    l + 1,
                )[j]);
            }
        }
    }
}

/// Writing a table's own values back onto it changes nothing.
proof fn lemma_hzd_apply_pairs_identity(
    ss: Seq<Seq<u8>>,
    pairs: Seq<(crate::hzd::Language, Seq<u8>)>,
)
    requires
        forall|j: int|
            0 <= j < pairs.len() ==> {
                let p = #[trigger] pairs[j];
                0 <= p.0.spec_code() < ss.len() && p.1 == ss[p.0.spec_code()]
            },
    ensures
        hs::apply_pairs_loc(ss, pairs) == ss,
    decreases pairs.len(),
{
    if pairs.len() > 0 {
        assert(ss.update(pairs[0].0.spec_code(), pairs[0].1) =~= ss);
        assert forall|j: int|
            0 <= j < pairs.skip(1).len() implies {
            let p = #[trigger] pairs.skip(1)[j];
            0 <= p.0.spec_code() < ss.len() && p.1 == ss[p.0.spec_code()]
        } by {
            assert(pairs.skip(1)[j] == pairs[j + 1]);
        }
        lemma_hzd_apply_pairs_identity(ss, pairs.skip(1));
    }
}

/// Writing a line-list table's own values back onto it changes nothing.
proof fn lemma_hzd_apply_pairs_cut_identity(
    ts: Seq<Seq<Seq<u8>>>,
    pairs: Seq<(crate::hzd::Language, Seq<Seq<u8>>)>,
)
    requires
        forall|j: int|
            0 <= j < pairs.len() ==> {
                let p = #[trigger] pairs[j];
                0 <= p.0.spec_code() < ts.len() && p.1 == ts[p.0.spec_code()]
            },
    ensures
        hs::apply_pairs_cut(ts, pairs) == ts,
    decreases pairs.len(),
{
    if pairs.len() > 0 {
        assert(ts.update(pairs[0].0.spec_code(), pairs[0].1) =~= ts);
        assert forall|j: int|
            0 <= j < pairs.skip(1).len() implies {
            let p = #[trigger] pairs.skip(1)[j];
            0 <= p.0.spec_code() < ts.len() && p.1 == ts[p.0.spec_code()]
        } by {
            assert(pairs.skip(1)[j] == pairs[j + 1]);
        }
        lemma_hzd_apply_pairs_cut_identity(ts, pairs.skip(1));
    }
}

/// Importing an unedited document reproduces exactly the extracted
/// resources.
proof fn lemma_hzd_import_doc_sound(
    cs: Seq<hst::ChunkModel>,
    ls: Seq<hl::LocalResourceModel>,
    langs: Seq<crate::hzd::Language>,
)
    requires
        hst::wf_chunks(cs),
        forall|j: int|
            0 <= j < ls.len() ==> {
                let l = #[trigger] ls[j];
                0 <= l.index < cs.len() && hl::local_of_chunk(cs[l.index], l.index) == Some(l)
            },
    ensures
        hs::spec_import_doc(cs, hs::spec_serialize(ls, langs)) == Ok::<
            _,
            crate::hzd::HZDError,
        >(ls),
    decreases ls.len(),
{
    let ds = hs::spec_serialize(ls, langs);
    if ls.len() > 0 {
        let l = ls[0];
        let d = ds[0];
        assert(d == hs::spec_doc_of_local(l, langs));
        match cs[l.index].variant {
            hst::VariantModel::Localized(m) => {
                assert(l.variant == hl::LocalModel::Localized(m.strings));
                lemma_hzd_doc_pairs_sub(m.strings, langs, 0);
                assert(m.strings.len() == 21) by {
                    assert(hst::wf_chunk(cs[l.index]));
                }
                lemma_hzd_apply_pairs_identity(m.strings, hs::doc_pairs_loc(m.strings, langs, 0));
                assert(hl::LocalResourceModel {
                    index: l.index,
                    variant: hl::LocalModel::Localized(
                        hs::apply_pairs_loc(m.strings, hs::doc_pairs_loc(m.strings, langs, 0)),
                    ),
                } == l);
            },
            hst::VariantModel::Cutscene(m) => {
                let ts = hl::cutscene_texts(m);
                assert(l.variant == hl::LocalModel::Cutscene(ts));
                lemma_hzd_doc_pairs_cut_sub(ts, langs, 0);
                lemma_hzd_apply_pairs_cut_identity(ts, hs::doc_pairs_cut(ts, langs, 0));
                assert(hl::LocalResourceModel {
                    index: l.index,
                    variant: hl::LocalModel::Cutscene(
                        hs::apply_pairs_cut(ts, hs::doc_pairs_cut(ts, langs, 0)),
                    ),
                } == l);
            },
            hst::VariantModel::Others(_) => {
                assert(false);
            },
        }
        assert forall|j: int|
            0 <= j < ls.skip(1).len() implies {
            let x = #[trigger] ls.skip(1)[j];
            0 <= x.index < cs.len() && hl::local_of_chunk(cs[x.index], x.index) == Some(x)
        } by {
            assert(ls.skip(1)[j] == ls[j + 1]);
        }
        lemma_hzd_import_doc_sound(cs, ls.skip(1), langs);
        assert(ds.skip(1) =~= hs::spec_serialize(ls.skip(1), langs));
        assert(hs::spec_import_doc(cs, ds.skip(1)) == Ok::<_, crate::hzd::HZDError>(ls.skip(1)));
        assert(hs::spec_import_doc(cs, ds) == Ok::<_, crate::hzd::HZDError>(
            seq![l] + ls.skip(1),
        ));
        assert(seq![l] + ls.skip(1) =~= ls);
    } else {
        assert(ds =~= Seq::<hs::SerdeLocalModel>::empty());
        assert(ls =~= Seq::<hl::LocalResourceModel>::empty());
    }
}

/// A whole structured-document export followed by an unedited import
/// leaves the container exactly as it was.
pub proof fn lemma_hzd_doc_roundtrip(cs: Seq<hst::ChunkModel>, langs: Seq<crate::hzd::Language>)
    requires
        hst::wf_chunks(cs),
    ensures
        hs::spec_import_doc(cs, hs::spec_serialize(hl::spec_get_locals(cs, 0), langs)) == Ok::<
            _,
            crate::hzd::HZDError,
        >(hl::spec_get_locals(cs, 0)),
        hl::spec_update_locals(cs, hl::spec_get_locals(cs, 0)) == Ok::<
            _,
            crate::hzd::HZDError,
        >(cs),
{
    lemma_hzd_locals_sound(cs, 0);
    lemma_hzd_import_doc_sound(cs, hl::spec_get_locals(cs, 0), langs);
    lemma_hzd_update_identity(cs, hl::spec_get_locals(cs, 0));
}

// -------------------------------------------------- update identity (DS)

/// Every extracted resource names its own chunk and carries its content.
proof fn lemma_ds_locals_sound(cs: Seq<dst::ChunkModel>, i: int)
    requires
        0 <= i <= cs.len(),
    ensures
        forall|j: int|
            0 <= j < dl::spec_get_locals(cs, i).len() ==> {
                let l = #[trigger] dl::spec_get_locals(cs, i)[j];
                0 <= l.index < cs.len() && dl::local_of_chunk(cs[l.index], l.index) == Some(l)
            },
    decreases cs.len() - i,
{
    if i < cs.len() {
        lemma_ds_locals_sound(cs, i + 1);
        match dl::local_of_chunk(cs[i], i) {
            Some(l) => {
                assert forall|j: int|
                    0 <= j < dl::spec_get_locals(cs, i).len() implies {
                    let x = #[trigger] dl::spec_get_locals(cs, i)[j];
                    0 <= x.index < cs.len() && dl::local_of_chunk(cs[x.index], x.index) == Some(
                        x,
                    )
                } by {
                    if j > 0 {
                        assert(dl::spec_get_locals(cs, i)[j] == dl::spec_get_locals(cs, i + 1)[j
                            - 1]);
                    }
                }
            },
            None => {},
        }
    }
}

/// Applying one extracted resource back to its own chunk changes nothing.
proof fn lemma_ds_apply_identity(cs: Seq<dst::ChunkModel>, i: int)
    requires
        dst::wf_chunks(cs),
        0 <= i < cs.len(),
        dl::local_of_chunk(cs[i], i) is Some,
    ensures
        dl::spec_apply_local(cs, dl::local_of_chunk(cs[i], i)->Some_0) == Ok::<
            _,
            crate::ds::DSError,
        >(cs),
{
    match cs[i].variant {
        dst::VariantModel::Localized(m) => {
            let texts = dl::localized_texts(m);
            assert forall|j: int|
                0 <= j < texts.len() implies (#[trigger] texts[j]).len() <= 0xffff by {
                assert(texts[j] == m.groups[j].text);
                assert(dst::wf_group(m.groups[j]));
            }
            dl::lemma_find_long_narrow_prefix(texts, texts.len() as int);
            let m2 = dl::spec_update_localized(m, texts)->Ok_0;
            assert forall|j: int| 0 <= j < m2.groups.len() implies m2.groups[j] == m.groups[j] by {
                assert(texts[j] == m.groups[j].text);
            }
            assert(m2.groups =~= m.groups);
            assert(m2 == m);
            assert(cs.update(i, dst::ChunkModel { magic: cs[i].magic, variant: cs[i].variant })
                =~= cs);
        },
        dst::VariantModel::Others(_) => {
            assert(false);
        },
    }
}

/// Applying everything `get_locals` returns changes nothing.
pub proof fn lemma_ds_update_identity(cs: Seq<dst::ChunkModel>, ls: Seq<dl::LocalResourceModel>)
    requires
        dst::wf_chunks(cs),
        forall|j: int|
            0 <= j < ls.len() ==> {
                let l = #[trigger] ls[j];
                0 <= l.index < cs.len() && dl::local_of_chunk(cs[l.index], l.index) == Some(l)
            },
    ensures
        dl::spec_update_locals(cs, ls) == Ok::<_, crate::ds::DSError>(cs),
    decreases ls.len(),
{
    if ls.len() > 0 {
        lemma_ds_apply_identity(cs, ls[0].index);
        assert forall|j: int|
            0 <= j < ls.skip(1).len() implies {
            let l = #[trigger] ls.skip(1)[j];
            0 <= l.index < cs.len() && dl::local_of_chunk(cs[l.index], l.index) == Some(l)
        } by {
            assert(ls.skip(1)[j] == ls[j + 1]);
        }
        lemma_ds_update_identity(cs, ls.skip(1));
    }
}

/// A whole structured-document export followed by an unedited import
/// leaves the container exactly as it was.
pub proof fn lemma_ds_doc_roundtrip(cs: Seq<dst::ChunkModel>, langs: Seq<crate::ds::Language>)
    requires
        dst::wf_chunks(cs),
    ensures
        dse::spec_import_doc(cs, dse::spec_serialize(dl::spec_get_locals(cs, 0), langs)) == Ok::<
            _,
            crate::ds::DSError,
        >(dl::spec_get_locals(cs, 0)),
        dl::spec_update_locals(cs, dl::spec_get_locals(cs, 0)) == Ok::<_, crate::ds::DSError>(cs),
{
    lemma_ds_locals_sound(cs, 0);
    lemma_ds_import_doc_sound(cs, dl::spec_get_locals(cs, 0), langs);
    lemma_ds_update_identity(cs, dl::spec_get_locals(cs, 0));
}

/// Every document pair of a string table carries that table's own value.
proof fn lemma_ds_doc_pairs_sub(ss: Seq<Seq<u8>>, langs: Seq<crate::ds::Language>, l: int)
    requires
        0 <= l <= 25,
    ensures
        forall|j: int|
            0 <= j < dse::doc_pairs(ss, langs, l).len() ==> {
                let p = #[trigger] dse::doc_pairs(ss, langs, l)[j];
                0 <= p.0.spec_code() < 25 && p.1 == ss[p.0.spec_code()]
            },
    decreases 25 - l,
{
    if l < 25 {
        lemma_ds_doc_pairs_sub(ss, langs, l + 1);
        if dse::selected(langs, l) {
            crate::ds::lemma_from_code_matches_spec(l);
            assert forall|j: int|
                0 <= j < dse::doc_pairs(ss, langs, l).len() implies {
                let p = #[trigger] dse::doc_pairs(ss, langs, l)[j];
                0 <= p.0.spec_code() < 25 && p.1 == ss[p.0.spec_code()]
            } by {
                if j > 0 {
                    assert(dse::doc_pairs(ss, langs, l)[j] == dse::doc_pairs(ss, langs, l + 1)[j
                        - 1]);
                } else {
                    assert(dse::doc_pairs(ss, langs, l)[0] == (crate::ds::Language::spec_from_code(
                        l,
                    ), ss[l]));
                }
            }
        } else {
            assert forall|j: int|
                0 <= j < dse::doc_pairs(ss, langs, l).len() implies {
                let p = #[trigger] dse::doc_pairs(ss, langs, l)[j];
                0 <= p.0.spec_code() < 25 && p.1 == ss[p.0.spec_code()]
            } by {
                assert(dse::doc_pairs(ss, langs, l)[j] == dse::doc_pairs(ss, langs, l + 1)[j]);
            }
        }
    }
}

/// Writing a table's own values back onto it changes nothing.
proof fn lemma_ds_apply_pairs_identity(
    ss: Seq<Seq<u8>>,
    pairs: Seq<(crate::ds::Language, Seq<u8>)>,
)
    requires
        forall|j: int|
            0 <= j < pairs.len() ==> {
                let p = #[trigger] pairs[j];
                0 <= p.0.spec_code() < ss.len() && p.1 == ss[p.0.spec_code()]
            },
    ensures
        dse::apply_pairs(ss, pairs) == ss,
    decreases pairs.len(),
{
    if pairs.len() > 0 {
        assert(ss.update(pairs[0].0.spec_code(), pairs[0].1) =~= ss);
        assert forall|j: int|
            0 <= j < pairs.skip(1).len() implies {
            let p = #[trigger] pairs.skip(1)[j];
            0 <= p.0.spec_code() < ss.len() && p.1 == ss[p.0.spec_code()]
        } by {
            assert(pairs.skip(1)[j] == pairs[j + 1]);
        }
        lemma_ds_apply_pairs_identity(ss, pairs.skip(1));
    }
}

/// Importing an unedited document reproduces exactly the extracted
/// resources.
proof fn lemma_ds_import_doc_sound(
    cs: Seq<dst::ChunkModel>,
    ls: Seq<dl::LocalResourceModel>,
    langs: Seq<crate::ds::Language>,
)
    requires
        dst::wf_chunks(cs),
        forall|j: int|
            0 <= j < ls.len() ==> {
                let l = #[trigger] ls[j];
                0 <= l.index < cs.len() && dl::local_of_chunk(cs[l.index], l.index) == Some(l)
            },
    ensures
        dse::spec_import_doc(cs, dse::spec_serialize(ls, langs)) == Ok::<_, crate::ds::DSError>(
            ls,
        ),
    decreases ls.len(),
{
    let ds = dse::spec_serialize(ls, langs);
    if ls.len() > 0 {
        let l = ls[0];
        match cs[l.index].variant {
            dst::VariantModel::Localized(m) => {
                assert(l.strings == dl::localized_texts(m));
                lemma_ds_doc_pairs_sub(dl::localized_texts(m), langs, 0);
                assert(dl::localized_texts(m).len() == 25) by {
                    assert(dst::wf_chunk(cs[l.index]));
                }
                lemma_ds_apply_pairs_identity(
                    dl::localized_texts(m),
                    dse::doc_pairs(dl::localized_texts(m), langs, 0),
                );
                assert(dl::LocalResourceModel {
                    index: l.index,
                    strings: dse::apply_pairs(
                        dl::localized_texts(m),
                        dse::doc_pairs(dl::localized_texts(m), langs, 0),
                    ),
                } == l);
            },
            dst::VariantModel::Others(_) => {
                assert(false);
            },
        }
        assert forall|j: int|
            0 <= j < ls.skip(1).len() implies {
            let x = #[trigger] ls.skip(1)[j];
            0 <= x.index < cs.len() && dl::local_of_chunk(cs[x.index], x.index) == Some(x)
        } by {
            assert(ls.skip(1)[j] == ls[j + 1]);
        }
        lemma_ds_import_doc_sound(cs, ls.skip(1), langs);
        assert(ds.skip(1) =~= dse::spec_serialize(ls.skip(1), langs));
        assert(dse::spec_import_doc(cs, ds.skip(1)) == Ok::<_, crate::ds::DSError>(ls.skip(1)));
        assert(dse::spec_import_doc(cs, ds) == Ok::<_, crate::ds::DSError>(seq![l] + ls.skip(1)));
        assert(seq![l] + ls.skip(1) =~= ls);
    } else {
        assert(ds =~= Seq::<dse::SerdeLocalModel>::empty());
        assert(ls =~= Seq::<dl::LocalResourceModel>::empty());
    }
}


// ------------------------------------------------ line-list P2 (DS)

/// The selected-language list carries only in-range codes.
proof fn lemma_ds_sorted_codes(langs: Seq<crate::ds::Language>, l: int)
    requires
        0 <= l <= 25,
    ensures
        forall|j: int|
            0 <= j < dse::sorted_langs(langs, l).len() ==> 0 <= (#[trigger] dse::sorted_langs(
                langs,
                l,
            )[j]).spec_code() < 25,
    decreases 25 - l,
{
    if l < 25 {
        lemma_ds_sorted_codes(langs, l + 1);
        if dse::selected(langs, l) {
            crate::ds::lemma_from_code_matches_spec(l);
            assert forall|j: int|
                0 <= j < dse::sorted_langs(langs, l).len() implies 0 <= (
            #[trigger] dse::sorted_langs(langs, l)[j]).spec_code() < 25 by {
                if j > 0 {
                    assert(dse::sorted_langs(langs, l)[j] == dse::sorted_langs(langs, l + 1)[j
                        - 1]);
                }
            }
        } else {
            assert forall|j: int|
                0 <= j < dse::sorted_langs(langs, l).len() implies 0 <= (
            #[trigger] dse::sorted_langs(langs, l)[j]).spec_code() < 25 by {
                assert(dse::sorted_langs(langs, l)[j] == dse::sorted_langs(langs, l + 1)[j]);
            }
        }
    }
}

/// Writing a resource's own exported lines back onto it changes nothing
/// (without language-name embedding, a line is exactly its text).
proof fn lemma_ds_overlay_lines_identity(
    ss: Seq<Seq<u8>>,
    langs: Seq<crate::ds::Language>,
    seg: Seq<Seq<u8>>,
)
    requires
        forall|j: int|
            0 <= j < langs.len() ==> 0 <= (#[trigger] langs[j]).spec_code() < ss.len(),
        seg == dse::loc_lines(ss, langs, false),
    ensures
        dse::overlay_lines(ss, langs, false, seg) == ss,
    decreases langs.len(),
{
    if langs.len() > 0 {
        assert(seg[0] == dse::spec_line(false, langs[0], ss[langs[0].spec_code()]));
        assert(dse::spec_strip(false, langs[0], seg[0]) == seg[0]);
        assert(ss.update(langs[0].spec_code(), dse::spec_strip(false, langs[0], seg[0])) =~= ss);
        assert forall|j: int|
            0 <= j < langs.skip(1).len() implies 0 <= (#[trigger] langs.skip(1)[j]).spec_code()
            < ss.len() by {
            assert(langs.skip(1)[j] == langs[j + 1]);
        }
        assert(seg.skip(1) =~= dse::loc_lines(ss, langs.skip(1), false)) by {
            assert forall|j: int| 0 <= j < seg.skip(1).len() implies seg.skip(1)[j]
                == dse::loc_lines(ss, langs.skip(1), false)[j] by {
                assert(seg.skip(1)[j] == seg[j + 1]);
                assert(langs.skip(1)[j] == langs[j + 1]);
            }
        }
        lemma_ds_overlay_lines_identity(ss, langs.skip(1), seg.skip(1));
    }
}

/// Importing an unedited line-list export reproduces exactly the
/// extracted resources, envelope entry by envelope entry.
proof fn lemma_ds_lines_rec(
    cs: Seq<dst::ChunkModel>,
    lines: Seq<Seq<u8>>,
    de: dse::TxtDeInfoModel,
    ls: Seq<dl::LocalResourceModel>,
    i: int,
    c: int,
)
    requires
        dst::wf_chunks(cs),
        forall|j: int|
            0 <= j < ls.len() ==> {
                let l = #[trigger] ls[j];
                0 <= l.index < cs.len() && dl::local_of_chunk(cs[l.index], l.index) == Some(l)
            },
        !de.add_language_names,
        cs.len() <= usize::MAX,
        lines.len() <= usize::MAX,
        forall|j: int|
            0 <= j < de.languages.len() ==> 0 <= (#[trigger] de.languages[j]).spec_code() < 25,
        0 <= i,
        0 <= c <= lines.len(),
        de.info.skip(i) == dse::infos_of(ls, de.languages, c),
        i + ls.len() == de.info.len(),
        c + dse::all_lines(ls, de.languages, false).len() == lines.len(),
        lines.subrange(c, lines.len() as int) == dse::all_lines(ls, de.languages, false),
    ensures
        dse::spec_lines_locals(cs, lines, de, i) == Ok::<_, crate::ds::DSError>(ls),
    decreases ls.len(),
{
    let langs = de.languages;
    if ls.len() == 0 {
        assert(ls =~= Seq::<dl::LocalResourceModel>::empty());
    } else {
        let l = ls[0];
        let n = langs.len() as int;
        let first = dse::loc_lines(l.strings, langs, false);
        assert(first.len() == n);
        let inf = de.info[i];
        assert(inf == de.info.skip(i)[0]);
        assert(inf == dse::infos_of(ls, langs, c)[0]);
        assert(inf.index == l.index && inf.start == c && inf.end == c + n);
        let m = cs[l.index].variant->Localized_0;
        assert(l.strings == dl::localized_texts(m));
        assert(l.strings.len() == 25) by {
            assert(dst::wf_chunk(cs[l.index]));
        }
        let seg = lines.subrange(c, c + n);
        assert(seg =~= first) by {
            assert forall|j: int| 0 <= j < n implies seg[j] == first[j] by {
                assert(seg[j] == lines.subrange(c, lines.len() as int)[j]);
                assert(dse::all_lines(ls, langs, false)[j] == first[j]);
            }
        }
        lemma_ds_overlay_lines_identity(l.strings, langs, seg);
        assert(dl::LocalResourceModel {
            index: inf.index as int,
            strings: dse::overlay_lines(dl::localized_texts(m), langs, false, seg),
        } == l);
        assert forall|j: int|
            0 <= j < ls.skip(1).len() implies {
            let x = #[trigger] ls.skip(1)[j];
            0 <= x.index < cs.len() && dl::local_of_chunk(cs[x.index], x.index) == Some(x)
        } by {
            assert(ls.skip(1)[j] == ls[j + 1]);
        }
        assert(de.info.skip(i + 1) =~= dse::infos_of(ls.skip(1), langs, c + n)) by {
            assert(de.info.skip(i).skip(1) =~= de.info.skip(i + 1));
            assert(dse::infos_of(ls, langs, c).skip(1) =~= dse::infos_of(
                ls.skip(1),
                langs,
                c + n,
            ));
        }
        assert(lines.subrange(c + n, lines.len() as int) =~= dse::all_lines(
            ls.skip(1),
            langs,
            false,
        )) by {
            assert forall|j: int|
                0 <= j < lines.len() - c - n implies lines.subrange(
                c + n,
                lines.len() as int,
            )[j] == dse::all_lines(ls.skip(1), langs, false)[j] by {
                assert(lines.subrange(c + n, lines.len() as int)[j] == lines.subrange(
                    c,
                    lines.len() as int,
                )[j + n]);
                assert(dse::all_lines(ls, langs, false)[j + n] == dse::all_lines(
                    ls.skip(1),
                    langs,
                    false,
                )[j]);
            }
        }
        lemma_ds_lines_rec(cs, lines, de, ls.skip(1), i + 1, c + n);
        assert(seq![l] + ls.skip(1) =~= ls);
    }
}

/// A whole line-list export followed by an unedited import leaves the
/// container exactly as it was (shown here without language-name
/// embedding; name prefixes are stripped by exact inverse at import).
pub proof fn lemma_ds_lines_roundtrip(cs: Seq<dst::ChunkModel>, langs_in: Seq<crate::ds::Language>)
    requires
        dst::wf_chunks(cs),
        cs.len() <= usize::MAX,
        dse::all_lines(
            dl::spec_get_locals(cs, 0),
            dse::sorted_langs(langs_in, 0),
            false,
        ).len() <= usize::MAX,
    ensures
        ({
            let ls = dl::spec_get_locals(cs, 0);
            let sel = dse::sorted_langs(langs_in, 0);
            let lines = dse::all_lines(ls, sel, false);
            let de = dse::TxtDeInfoModel {
                languages: sel,
                add_language_names: false,
                count: lines.len() as int,
                info: dse::infos_of(ls, sel, 0),
            };
            &&& dse::spec_import_lines(cs, lines, de) == Ok::<_, crate::ds::DSError>(ls)
            &&& dl::spec_update_locals(cs, ls) == Ok::<_, crate::ds::DSError>(cs)
        }),
{
    let ls = dl::spec_get_locals(cs, 0);
    let sel = dse::sorted_langs(langs_in, 0);
    let lines = dse::all_lines(ls, sel, false);
    let de = dse::TxtDeInfoModel {
        languages: sel,
        add_language_names: false,
        count: lines.len() as int,
        info: dse::infos_of(ls, sel, 0),
    };
    lemma_ds_locals_sound(cs, 0);
    lemma_ds_sorted_codes(langs_in, 0);
    lemma_ds_infos_len(ls, sel, 0);
    assert(de.info.skip(0) =~= de.info);
    assert(lines.subrange(0, lines.len() as int) =~= lines);
    lemma_ds_lines_rec(cs, lines, de, ls, 0, 0);
    lemma_ds_update_identity(cs, ls);
}

/// There is one envelope entry per resource.
proof fn lemma_ds_infos_len(
    ls: Seq<dl::LocalResourceModel>,
    langs: Seq<crate::ds::Language>,
    c: int,
)
    ensures
        dse::infos_of(ls, langs, c).len() == ls.len(),
    decreases ls.len(),
{
    if ls.len() > 0 {
        lemma_ds_infos_len(ls.skip(1), langs, c + langs.len() as int);
    }
}


// ------------------------------------------- end-to-end byte identity

/// For a container that decodes, a structured-document export followed
/// by an unedited import and a re-encode yields byte-identical output.
pub proof fn lemma_hzd_doc_cycle_byte_identity(d: Seq<u8>, langs: Seq<crate::hzd::Language>)
    requires
        hl::spec_new(d) is Ok,
    ensures
        ({
            let cs = hl::spec_new(d)->Ok_0;
            let doc = hs::spec_serialize(hl::spec_get_locals(cs, 0), langs);
            &&& hs::spec_import_doc(cs, doc) == Ok::<_, crate::hzd::HZDError>(
                hl::spec_get_locals(cs, 0),
            )
            &&& hl::spec_update_locals(cs, hl::spec_get_locals(cs, 0)) == Ok::<
                _,
                crate::hzd::HZDError,
            >(cs)
            &&& hst::spec_encode_chunks(cs) == d
        }),
{
    let cs = hl::spec_new(d)->Ok_0;
    assert(hst::spec_parse_chunks(d) == Ok::<_, crate::error::Error>(cs));
    hst::lemma_chunks_roundtrip(d);
    lemma_hzd_doc_roundtrip(cs, langs);
}

/// For a container that decodes, a structured-document export followed
/// by an unedited import and a re-encode yields byte-identical output.
pub proof fn lemma_ds_doc_cycle_byte_identity(d: Seq<u8>, langs: Seq<crate::ds::Language>)
    requires
        dl::spec_new(d) is Ok,
    ensures
        ({
            let cs = dl::spec_new(d)->Ok_0;
            let doc = dse::spec_serialize(dl::spec_get_locals(cs, 0), langs);
            &&& dse::spec_import_doc(cs, doc) == Ok::<_, crate::ds::DSError>(
                dl::spec_get_locals(cs, 0),
            )
            &&& dl::spec_update_locals(cs, dl::spec_get_locals(cs, 0)) == Ok::<
                _,
                crate::ds::DSError,
            >(cs)
            &&& dst::spec_encode_chunks(cs) == d
        }),
{
    let cs = dl::spec_new(d)->Ok_0;
    assert(dst::spec_parse_chunks(d) == Ok::<_, crate::error::Error>(cs));
    dst::lemma_chunks_roundtrip(d);
    lemma_ds_doc_roundtrip(cs, langs);
}


// ------------------------------------------------ line-list P2 (HZD)

/// The selected-language list carries only in-range codes.
proof fn lemma_hzd_sorted_codes(langs: Seq<crate::hzd::Language>, l: int)
    requires
        0 <= l <= 21,
    ensures
        forall|j: int|
            0 <= j < hs::sorted_langs(langs, l).len() ==> 0 <= (#[trigger] hs::sorted_langs(
                langs,
                l,
            )[j]).spec_code() < 21,
    decreases 21 - l,
{
    if l < 21 {
        lemma_hzd_sorted_codes(langs, l + 1);
        if hs::selected(langs, l) {
            crate::hzd::lemma_from_code_matches_spec(l);
            assert forall|j: int|
                0 <= j < hs::sorted_langs(langs, l).len() implies 0 <= (
            #[trigger] hs::sorted_langs(langs, l)[j]).spec_code() < 21 by {
                if j > 0 {
                    assert(hs::sorted_langs(langs, l)[j] == hs::sorted_langs(langs, l + 1)[j
                        - 1]);
                }
            }
        } else {
            assert forall|j: int|
                0 <= j < hs::sorted_langs(langs, l).len() implies 0 <= (
            #[trigger] hs::sorted_langs(langs, l)[j]).spec_code() < 21 by {
                assert(hs::sorted_langs(langs, l)[j] == hs::sorted_langs(langs, l + 1)[j]);
            }
        }
    }
}

/// Writing a resource's own exported lines back onto it changes nothing
/// (without language-name embedding, a line is exactly its text).
proof fn lemma_hzd_overlay_lines_identity(
    ss: Seq<Seq<u8>>,
    langs: Seq<crate::hzd::Language>,
    seg: Seq<Seq<u8>>,
)
    requires
        forall|j: int|
            0 <= j < langs.len() ==> 0 <= (#[trigger] langs[j]).spec_code() < ss.len(),
        seg == hs::loc_lines(ss, langs, false),
    ensures
        hs::overlay_lines_loc(ss, langs, false, seg) == ss,
    decreases langs.len(),
{
    if langs.len() > 0 {
        assert(seg[0] == hs::spec_line(false, langs[0], ss[langs[0].spec_code()]));
        assert(hs::spec_strip(false, langs[0], seg[0]) == seg[0]);
        assert(ss.update(langs[0].spec_code(), hs::spec_strip(false, langs[0], seg[0])) =~= ss);
        assert forall|j: int|
            0 <= j < langs.skip(1).len() implies 0 <= (#[trigger] langs.skip(1)[j]).spec_code()
            < ss.len() by {
            assert(langs.skip(1)[j] == langs[j + 1]);
        }
        assert(seg.skip(1) =~= hs::loc_lines(ss, langs.skip(1), false)) by {
            assert forall|j: int| 0 <= j < seg.skip(1).len() implies seg.skip(1)[j]
                == hs::loc_lines(ss, langs.skip(1), false)[j] by {
                assert(seg.skip(1)[j] == seg[j + 1]);
                assert(langs.skip(1)[j] == langs[j + 1]);
            }
        }
        lemma_hzd_overlay_lines_identity(ss, langs.skip(1), seg.skip(1));
    }
}

/// All selected languages of a line-list table carry the same line count.
pub open spec fn uniform_counts(
    ts: Seq<Seq<Seq<u8>>>,
    sel: Seq<crate::hzd::Language>,
    n: int,
) -> bool {
    forall|j: int| 0 <= j < sel.len() ==> ts[(#[trigger] sel[j]).spec_code()].len() == n
}

/// With a shared per-language count, a cutscene's exported lines have
/// one block of `n` lines per language.
proof fn lemma_hzd_cut_len(
    ts: Seq<Seq<Seq<u8>>>,
    sel: Seq<crate::hzd::Language>,
    n: int,
)
    requires
        0 <= n,
        uniform_counts(ts, sel, n),
    ensures
        hs::cut_lines(ts, sel, false).len() == sel.len() * n,
    decreases sel.len(),
{
    let sl = sel.len() as int;
    if sel.len() > 0 {
        assert(ts[sel[0].spec_code()].len() == n);
        assert(hs::lang_lines(ts, sel[0], false).len() == n);
        assert forall|j: int|
            0 <= j < sel.skip(1).len() implies ts[(#[trigger] sel.skip(1)[j]).spec_code()].len()
            == n by {
            assert(sel.skip(1)[j] == sel[j + 1]);
        }
        lemma_hzd_cut_len(ts, sel.skip(1), n);
        assert(sl * n == n + (sl - 1) * n) by (nonlinear_arith);
    } else {
        assert(sl * n == 0) by (nonlinear_arith)
            requires
                sl == 0,
        ;
    }
}

/// The `k`-th block of a cutscene's exported lines is language `k`'s own
/// lines.
proof fn lemma_hzd_cut_slice(
    ts: Seq<Seq<Seq<u8>>>,
    sel: Seq<crate::hzd::Language>,
    n: int,
    k: int,
)
    requires
        0 <= n,
        0 <= k < sel.len(),
        uniform_counts(ts, sel, n),
    ensures
        hs::cut_lines(ts, sel, false).subrange(k * n, (k + 1) * n) == hs::lang_lines(
            ts,
            sel[k],
            false,
        ),
    decreases k,
{
    lemma_hzd_cut_len(ts, sel, n);
    let sl = sel.len() as int;
    let whole = hs::cut_lines(ts, sel, false);
    let first = hs::lang_lines(ts, sel[0], false);
    assert(ts[sel[0].spec_code()].len() == n);
    assert(first.len() == n);
    assert forall|j: int|
        0 <= j < sel.skip(1).len() implies ts[(#[trigger] sel.skip(1)[j]).spec_code()].len()
        == n by {
        assert(sel.skip(1)[j] == sel[j + 1]);
    }
    assert(0 <= k * n && (k + 1) * n <= sl * n) by (nonlinear_arith)
        requires
            0 <= k < sl && n >= 0,
    ;
    if k == 0 {
        assert(k * n == 0 && (k + 1) * n == n) by (nonlinear_arith)
            requires
                k == 0,
        ;
        assert(whole.subrange(0, n) =~= first);
        assert(whole.subrange(k * n, (k + 1) * n) == first);
    } else {
        lemma_hzd_cut_slice(ts, sel.skip(1), n, k - 1);
        let rest = hs::cut_lines(ts, sel.skip(1), false);
        assert(sel.skip(1)[k - 1] == sel[k]);
        assert((k - 1) * n == k * n - n) by (nonlinear_arith);
        assert(k * n == (k + 1) * n - n) by (nonlinear_arith);
        assert(((k - 1) + 1) * n == k * n) by (nonlinear_arith);
        assert(rest.subrange((k - 1) * n, ((k - 1) + 1) * n) == hs::lang_lines(
            ts,
            sel[k],
            false,
        ));
        assert(0 <= k * n - n && (k + 1) * n - n <= rest.len()) by {
            lemma_hzd_cut_len(ts, sel.skip(1), n);
            assert(rest.len() == (sl - 1) * n);
            assert((sl - 1) * n + n == sl * n) by (nonlinear_arith);
            assert(k * n <= (sl - 1) * n) by (nonlinear_arith)
                requires
                    k <= sl - 1 && n >= 0,
            ;
        }
        let a = k * n;
        let b = (k + 1) * n;
        assert(whole.subrange(a, b) =~= rest.subrange(a - n, b - n)) by {
            assert forall|j: int| 0 <= j < n implies whole.subrange(a, b)[j] == rest.subrange(
                a - n,
                b - n,
            )[j] by {
                assert(whole[a + j] == rest[a - n + j]);
            }
        }
        assert(rest.subrange(a - n, b - n) == rest.subrange((k - 1) * n, ((k - 1) + 1) * n));
        assert(whole.subrange(k * n, (k + 1) * n) == hs::lang_lines(ts, sel[k], false));
    }
}

/// Writing a cutscene's own exported lines back onto it changes nothing.
proof fn lemma_hzd_overlay_cut_rec_identity(
    ts: Seq<Seq<Seq<u8>>>,
    sel: Seq<crate::hzd::Language>,
    seg: Seq<Seq<u8>>,
    n: int,
    k: int,
)
    requires
        n >= 1,
        0 <= k <= sel.len(),
        forall|j: int| 0 <= j < sel.len() ==> 0 <= (#[trigger] sel[j]).spec_code() < ts.len(),
        uniform_counts(ts, sel, n),
        seg == hs::cut_lines(ts, sel, false),
    ensures
        hs::overlay_cut_rec(ts, sel, false, seg, n, k) == ts,
    decreases sel.len() - k,
{
    if k < sel.len() {
        lemma_hzd_cut_slice(ts, sel, n, k);
        assert((k * n + n) == (k + 1) * n) by (nonlinear_arith);
        let sub = seg.subrange(k * n, (k + 1) * n);
        assert(sub == hs::lang_lines(ts, sel[k], false));
        assert(hs::strip_map(false, sel[k], sub) =~= ts[sel[k].spec_code()]) by {
            assert forall|j: int| 0 <= j < sub.len() implies hs::strip_map(
                false,
                sel[k],
                sub,
            )[j] == ts[sel[k].spec_code()][j] by {
                assert(sub[j] == hs::spec_line(false, sel[k], ts[sel[k].spec_code()][j]));
            }
        }
        assert(ts.update(sel[k].spec_code(), hs::strip_map(false, sel[k], sub)) =~= ts);
        lemma_hzd_overlay_cut_rec_identity(ts, sel, seg, n, k + 1);
    }
}

/// Every selected language of a line-list table carries as many lines
/// as the first one.
pub open spec fn cut_uniform(ts: Seq<Seq<Seq<u8>>>, sel: Seq<crate::hzd::Language>) -> bool {
    sel.len() > 0 ==> uniform_counts(ts, sel, ts[sel[0].spec_code()].len() as int)
}

/// A resource's line-list table gives every selected language one
/// shared line count (trivially true for a string-per-language
/// resource).
pub open spec fn local_uniform(l: hl::LocalResourceModel, sel: Seq<crate::hzd::Language>) -> bool {
    match l.variant {
        hl::LocalModel::Localized(_) => true,
        hl::LocalModel::Cutscene(ts) => cut_uniform(ts, sel),
    }
}

/// Importing an unedited line-list export reproduces exactly the
/// extracted resources, envelope entry by envelope entry.
proof fn lemma_hzd_lines_rec(
    cs: Seq<hst::ChunkModel>,
    lines: Seq<Seq<u8>>,
    de: hs::TxtDeInfoModel,
    ls: Seq<hl::LocalResourceModel>,
    i: int,
    c: int,
)
    requires
        hst::wf_chunks(cs),
        forall|j: int|
            0 <= j < ls.len() ==> {
                let l = #[trigger] ls[j];
                0 <= l.index < cs.len() && hl::local_of_chunk(cs[l.index], l.index) == Some(l)
            },
        forall|j: int| 0 <= j < ls.len() ==> local_uniform(#[trigger] ls[j], de.languages),
        !de.add_language_names,
        cs.len() <= usize::MAX,
        lines.len() <= usize::MAX,
        forall|j: int|
            0 <= j < de.languages.len() ==> 0 <= (#[trigger] de.languages[j]).spec_code() < 21,
        0 <= i,
        0 <= c <= lines.len(),
        de.info.skip(i) == hs::infos_of(ls, de.languages, false, c),
        i + ls.len() == de.info.len(),
        c + hs::all_lines(ls, de.languages, false).len() == lines.len(),
        lines.subrange(c, lines.len() as int) == hs::all_lines(ls, de.languages, false),
    ensures
        hs::spec_lines_locals(cs, lines, de, i) == Ok::<_, crate::hzd::HZDError>(ls),
    decreases ls.len(),
{
    let langs = de.languages;
    if ls.len() == 0 {
        assert(ls =~= Seq::<hl::LocalResourceModel>::empty());
    } else {
        let l = ls[0];
        let first = hs::local_lines(l, langs, false);
        let n = first.len() as int;
        let inf = de.info[i];
        assert(inf == de.info.skip(i)[0]);
        assert(inf == hs::infos_of(ls, langs, false, c)[0]);
        assert(inf.index == l.index && inf.start == c && inf.end == c + n);
        let seg = lines.subrange(c, c + n);
        assert(seg =~= first) by {
            assert forall|j: int| 0 <= j < n implies seg[j] == first[j] by {
                assert(seg[j] == lines.subrange(c, lines.len() as int)[j]);
                assert(hs::all_lines(ls, langs, false)[j] == first[j]);
            }
        }
        match cs[l.index].variant {
            hst::VariantModel::Localized(m) => {
                assert(l.variant == hl::LocalModel::Localized(m.strings));
                assert(m.strings.len() == 21) by {
                    assert(hst::wf_chunk(cs[l.index]));
                }
                lemma_hzd_overlay_lines_identity(m.strings, langs, seg);
                assert(hl::LocalResourceModel {
                    index: inf.index as int,
                    variant: hl::LocalModel::Localized(
                        hs::overlay_lines_loc(m.strings, langs, false, seg),
                    ),
                } == l);
            },
            hst::VariantModel::Cutscene(m) => {
                let ts = hl::cutscene_texts(m);
                assert(l.variant == hl::LocalModel::Cutscene(ts));
                assert(ts.len() == 21);
                assert(local_uniform(l, langs));
                if langs.len() == 0 {
                    assert(hs::overlay_lines_cut(ts, langs, false, seg) == ts);
                } else {
                    let un = ts[langs[0].spec_code()].len() as int;
                    assert(uniform_counts(ts, langs, un));
                    lemma_hzd_cut_len(ts, langs, un);
                    assert(seg == hs::cut_lines(ts, langs, false));
                    let per = seg.len() as int / langs.len() as int;
                    assert(per == un) by (nonlinear_arith)
                        requires
                            langs.len() >= 1 && un >= 0 && seg.len() == langs.len() * un && per
                                == seg.len() as int / langs.len() as int,
                    ;
                    if per == 0 {
                        assert(hs::overlay_lines_cut(ts, langs, false, seg) == ts);
                    } else {
                        lemma_hzd_overlay_cut_rec_identity(ts, langs, seg, per, 0);
                        assert(hs::overlay_lines_cut(ts, langs, false, seg) == ts);
                    }
                }
                assert(hl::LocalResourceModel {
                    index: inf.index as int,
                    variant: hl::LocalModel::Cutscene(
                        hs::overlay_lines_cut(ts, langs, false, seg),
                    ),
                } == l);
            },
            hst::VariantModel::Others(_) => {
                assert(false);
            },
        }
        assert forall|j: int|
            0 <= j < ls.skip(1).len() implies {
            let x = #[trigger] ls.skip(1)[j];
            0 <= x.index < cs.len() && hl::local_of_chunk(cs[x.index], x.index) == Some(x)
        } by {
            assert(ls.skip(1)[j] == ls[j + 1]);
        }
        assert forall|j: int|
            0 <= j < ls.skip(1).len() implies local_uniform(#[trigger] ls.skip(1)[j], langs) by {
            assert(ls.skip(1)[j] == ls[j + 1]);
        }
        assert(de.info.skip(i + 1) =~= hs::infos_of(ls.skip(1), langs, false, c + n)) by {
            assert(de.info.skip(i).skip(1) =~= de.info.skip(i + 1));
            assert(hs::infos_of(ls, langs, false, c).skip(1) =~= hs::infos_of(
                ls.skip(1),
                langs,
                false,
                c + n,
            ));
        }
        assert(lines.subrange(c + n, lines.len() as int) =~= hs::all_lines(
            ls.skip(1),
            langs,
            false,
        )) by {
            assert forall|j: int|
                0 <= j < lines.len() - c - n implies lines.subrange(
                c + n,
                lines.len() as int,
            )[j] == hs::all_lines(ls.skip(1), langs, false)[j] by {
                assert(lines.subrange(c + n, lines.len() as int)[j] == lines.subrange(
                    c,
                    lines.len() as int,
                )[j + n]);
                assert(hs::all_lines(ls, langs, false)[j + n] == hs::all_lines(
                    ls.skip(1),
                    langs,
                    false,
                )[j]);
            }
        }
        lemma_hzd_lines_rec(cs, lines, de, ls.skip(1), i + 1, c + n);
        assert(seq![l] + ls.skip(1) =~= ls);
    }
}

/// There is one envelope entry per resource.
proof fn lemma_hzd_infos_len(
    ls: Seq<hl::LocalResourceModel>,
    langs: Seq<crate::hzd::Language>,
    c: int,
)
    ensures
        hs::infos_of(ls, langs, false, c).len() == ls.len(),
    decreases ls.len(),
{
    if ls.len() > 0 {
        lemma_hzd_infos_len(
            ls.skip(1),
            langs,
            c + hs::local_lines(ls[0], langs, false).len() as int,
        );
    }
}

/// A whole line-list export followed by an unedited import leaves the
/// container exactly as it was.  Shown without language-name embedding
/// and for containers whose cutscenes give every selected language the
/// same line count: the import divides each recorded range evenly among
/// the languages, so unequal counts cannot reconstruct in either
/// direction.
pub proof fn lemma_hzd_lines_roundtrip(
    cs: Seq<hst::ChunkModel>,
    langs_in: Seq<crate::hzd::Language>,
)
    requires
        hst::wf_chunks(cs),
        cs.len() <= usize::MAX,
        hs::all_lines(
            hl::spec_get_locals(cs, 0),
            hs::sorted_langs(langs_in, 0),
            false,
        ).len() <= usize::MAX,
        forall|i: int|
            0 <= i < cs.len() ==> match (#[trigger] cs[i]).variant {
                hst::VariantModel::Cutscene(m) => cut_uniform(
                    hl::cutscene_texts(m),
                    hs::sorted_langs(langs_in, 0),
                ),
                _ => true,
            },
    ensures
        ({
            let ls = hl::spec_get_locals(cs, 0);
            let sel = hs::sorted_langs(langs_in, 0);
            let lines = hs::all_lines(ls, sel, false);
            let de = hs::TxtDeInfoModel {
                languages: sel,
                add_language_names: false,
                count: lines.len() as int,
                info: hs::infos_of(ls, sel, false, 0),
            };
            &&& hs::spec_import_lines(cs, lines, de) == Ok::<_, crate::hzd::HZDError>(ls)
            &&& hl::spec_update_locals(cs, ls) == Ok::<_, crate::hzd::HZDError>(cs)
        }),
{
    let ls = hl::spec_get_locals(cs, 0);
    let sel = hs::sorted_langs(langs_in, 0);
    let lines = hs::all_lines(ls, sel, false);
    let de = hs::TxtDeInfoModel {
        languages: sel,
        add_language_names: false,
        count: lines.len() as int,
        info: hs::infos_of(ls, sel, false, 0),
    };
    lemma_hzd_locals_sound(cs, 0);
    lemma_hzd_sorted_codes(langs_in, 0);
    lemma_hzd_infos_len(ls, sel, 0);
    assert forall|j: int| 0 <= j < ls.len() implies local_uniform(#[trigger] ls[j], sel) by {
        let l = ls[j];
        assert(0 <= l.index < cs.len() && hl::local_of_chunk(cs[l.index], l.index) == Some(l));
        match cs[l.index].variant {
            hst::VariantModel::Cutscene(m) => {
                assert(l.variant == hl::LocalModel::Cutscene(hl::cutscene_texts(m)));
                assert(cut_uniform(hl::cutscene_texts(m), sel));
                assert(local_uniform(l, sel));
            },
            hst::VariantModel::Localized(m) => {
                assert(l.variant == hl::LocalModel::Localized(m.strings));
                assert(local_uniform(l, sel));
            },
            hst::VariantModel::Others(_) => {
                assert(false);
            },
        }
    }
    assert(de.info.skip(0) =~= de.info);
    assert(lines.subrange(0, lines.len() as int) =~= lines);
    lemma_hzd_lines_rec(cs, lines, de, ls, 0, 0);
    lemma_hzd_update_identity(cs, ls);
}

} // verus!
