use dloc::ds::serialize::LocalResource as DocEntry;
use dloc::ds::{DSError, DSLocal, Language, LOCALIZED_MAGIC};
use dloc::error::Error;
use dloc::fixed_map::EnumKey;

fn narrow(s: &str) -> Vec<u8> {
    let mut out = (s.len() as u16).to_le_bytes().to_vec();
    out.extend_from_slice(s.as_bytes());
    out
}

fn chunk(magic: u64, payload: &[u8]) -> Vec<u8> {
    let mut out = magic.to_le_bytes().to_vec();
    out.extend_from_slice(&(payload.len() as u32).to_le_bytes());
    out.extend_from_slice(payload);
    out
}

/// A localized payload: texts from `head`, the rest empty; every group
/// keeps a note and a mode byte.
fn localized_payload(head: &[&str]) -> Vec<u8> {
    let mut out = vec![3u8; 16];
    for l in 0..25 {
        let s = if l < head.len() { head[l] } else { "" };
        out.extend_from_slice(&narrow(s));
        out.extend_from_slice(&narrow("note"));
        out.push(l as u8);
    }
    out
}

fn simple_file() -> Vec<u8> {
    let mut data = chunk(LOCALIZED_MAGIC, &localized_payload(&["Hello", "Bonjour"]));
    data.extend_from_slice(&chunk(0x4242, &[1, 2, 3]));
    data
}

#[test]
fn ds_decode_then_encode_is_identity() {
    let data = simple_file();
    let local = DSLocal::new(&data).unwrap();
    assert_eq!(local.write(), data);
}

#[test]
fn ds_no_local_resource_is_rejected() {
    let data = chunk(0x4242, &[1, 2, 3]);
    assert!(matches!(DSLocal::new(&data), Err(Error::NoLocalResource)));
}

#[test]
fn update_keeps_notes_and_modes() {
    let data = simple_file();
    let mut local = DSLocal::new(&data).unwrap();
    let mut locals = local.get_locals();
    *locals[0].strings.get_mut(Language::English) = b"Hi".to_vec();
    local.update_locals(locals).unwrap();
    let mut expected = chunk(LOCALIZED_MAGIC, &localized_payload(&["Hi", "Bonjour"]));
    expected.extend_from_slice(&chunk(0x4242, &[1, 2, 3]));
    assert_eq!(local.write(), expected);
}

#[test]
fn update_against_opaque_chunk_fails() {
    let data = simple_file();
    let mut local = DSLocal::new(&data).unwrap();
    let mut locals = local.get_locals();
    locals[0].index = 1;
    assert_eq!(
        local.update_locals(locals),
        Err(
            DSError::ResourceNotMatchAtIdx {
                input: dloc::error::ResourceKind::Localized,
                original: dloc::error::ResourceKind::Others,
            },
        ),
    );
}

#[test]
fn ds_document_roundtrip_is_identity() {
    let data = simple_file();
    let mut local = DSLocal::new(&data).unwrap();
    let doc = local.internal_serialize(&Language::all_variants());
    local.internal_deserialize_and_update(doc).unwrap();
    assert_eq!(local.write(), data);
}

#[test]
fn document_import_edits_one_text() {
    let data = simple_file();
    let mut local = DSLocal::new(&data).unwrap();
    let doc = vec![
        DocEntry { index: 0, strings: vec![(Language::French, b"Salut".to_vec())] },
    ];
    local.internal_deserialize_and_update(doc).unwrap();
    let mut expected = chunk(LOCALIZED_MAGIC, &localized_payload(&["Hello", "Salut"]));
    expected.extend_from_slice(&chunk(0x4242, &[1, 2, 3]));
    assert_eq!(local.write(), expected);
}

#[test]
fn ds_line_list_roundtrip_is_identity() {
    let data = simple_file();
    for add_names in [false, true] {
        let mut local = DSLocal::new(&data).unwrap();
        let (lines, deinfo) = local.internal_serialize_to_lines(
            &Language::all_variants(),
            add_names,
        );
        assert_eq!(lines.len(), 25);
        local
            .internal_deserialize_and_update_from_lines(&lines, deinfo)
            .unwrap();
        assert_eq!(local.write(), data);
    }
}

#[test]
fn ds_line_count_mismatch_fails_without_write() {
    let data = simple_file();
    let mut local = DSLocal::new(&data).unwrap();
    let (mut lines, deinfo) = local.internal_serialize_to_lines(
        &vec![Language::English, Language::Greek],
        false,
    );
    lines.push(b"extra".to_vec());
    assert_eq!(
        local.internal_deserialize_and_update_from_lines(&lines, deinfo),
        Err(DSError::LineCountDoesntMatchWithInput { expected: 2, got: 3 }),
    );
    assert_eq!(local.write(), data);
}

#[test]
fn ds_oversize_replacement_string_fails() {
    let data = simple_file();
    let mut local = DSLocal::new(&data).unwrap();
    let mut locals = local.get_locals();
    *locals[0].strings.get_mut(Language::English) = vec![b'y'; 100_000];
    assert_eq!(
        local.update_locals(locals),
        Err(DSError::StringTooLong { got: 100_000, max: 0xffff }),
    );
}

#[test]
fn language_codes_cover_the_range() {
    let all = Language::all_variants();
    assert_eq!(all.len(), 25);
    for (i, l) in all.iter().enumerate() {
        assert_eq!(l.code(), i);
        assert_eq!(Language::from_code(i), *l);
    }
    assert_eq!(Language::Hungarian.code(), 24);
    assert_eq!(Language::English.name(), "English");
}
