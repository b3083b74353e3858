use dloc::error::Error;
use dloc::hzd::serialize::{SerdeLocal, SerdeLocalVariants, TxtLocalInfo, TxtLocalVariants};
use dloc::hzd::{HZDError, HZDLocal, Language, LocalVariants, CUTSCENE_MAGIC, LOCALIZED_MAGIC};
use dloc::text::EofReplacor;

fn narrow(s: &str) -> Vec<u8> {
    let mut out = (s.len() as u16).to_le_bytes().to_vec();
    out.extend_from_slice(s.as_bytes());
    out
}

fn wide(s: &str) -> Vec<u8> {
    let units: Vec<u16> = s.encode_utf16().collect();
    let mut out = (units.len() as u32).to_le_bytes().to_vec();
    for u in units {
        out.extend_from_slice(&u.to_le_bytes());
    }
    out
}

fn chunk(magic: u64, payload: &[u8]) -> Vec<u8> {
    let mut out = magic.to_le_bytes().to_vec();
    out.extend_from_slice(&(payload.len() as u32).to_le_bytes());
    out.extend_from_slice(payload);
    out
}

/// A localized payload whose first strings are `head` and the rest empty.
fn localized_payload(head: &[&str]) -> Vec<u8> {
    let mut out = vec![7u8; 16];
    for l in 0..21 {
        let s = if l < head.len() { head[l] } else { "" };
        out.extend_from_slice(&narrow(s));
    }
    out
}

/// A cutscene payload with the given (code, lines) groups, one per
/// language code in the given order.
fn cutscene_payload(groups: &[(u32, Vec<(&str, u64)>)]) -> Vec<u8> {
    let mut out = vec![9u8; 16];
    let block = [1u8, 2, 3, 4, 5, 6]; // length field 2, plus the 4 extra bytes
    out.extend_from_slice(&2u32.to_le_bytes());
    out.extend_from_slice(&block);
    out.extend_from_slice(&21u32.to_le_bytes());
    for (code, lines) in groups {
        out.extend_from_slice(&code.to_le_bytes());
        out.extend_from_slice(&(lines.len() as u32).to_le_bytes());
        for (s, t) in lines {
            out.extend_from_slice(&wide(s));
            out.extend_from_slice(&t.to_le_bytes());
        }
    }
    out.extend_from_slice(&[0xaa; 5]);
    out
}

fn all_group_codes(first: Vec<(&str, u64)>) -> Vec<(u32, Vec<(&str, u64)>)> {
    let mut gs = vec![(0u32, first)];
    for c in 1..21u32 {
        gs.push((c, Vec::new()));
    }
    gs
}

fn simple_file() -> Vec<u8> {
    let mut data = chunk(LOCALIZED_MAGIC, &localized_payload(&["Hello", "Bonjour"]));
    data.extend_from_slice(&chunk(0x1234_5678, &[9, 8, 7, 6]));
    data
}

#[test]
fn decode_then_encode_is_identity() {
    let data = simple_file();
    let local = HZDLocal::new(&data).unwrap();
    assert_eq!(local.write(), data);
}

#[test]
fn decode_then_encode_keeps_cutscene_group_order() {
    // group codes stored out of canonical order still round-trip byte
    // for byte
    let mut gs = all_group_codes(vec![("Line one", 77), ("Line two", 88)]);
    gs.reverse();
    let mut data = chunk(CUTSCENE_MAGIC, &cutscene_payload(&gs));
    data.extend_from_slice(&chunk(0xdead_beef, &[1, 2, 3]));
    let local = HZDLocal::new(&data).unwrap();
    assert_eq!(local.write(), data);
}

#[test]
fn no_local_resource_is_rejected() {
    let data = chunk(0x1111, &[1, 2, 3]);
    assert!(matches!(HZDLocal::new(&data), Err(Error::NoLocalResource)));
    assert!(matches!(HZDLocal::new(&Vec::new()), Err(Error::NoLocalResource)));
}

#[test]
fn truncated_record_is_rejected() {
    let mut data = simple_file();
    data.pop();
    assert!(matches!(HZDLocal::new(&data), Err(Error::UnexpectedEof)));
    assert!(matches!(HZDLocal::new(&vec![1, 2, 3]), Err(Error::UnexpectedEof)));
}

#[test]
fn invalid_utf8_string_is_rejected() {
    let mut payload = vec![0u8; 16];
    payload.extend_from_slice(&2u16.to_le_bytes());
    payload.extend_from_slice(&[0xff, 0xfe]);
    for _ in 1..21 {
        payload.extend_from_slice(&narrow(""));
    }
    let data = chunk(LOCALIZED_MAGIC, &payload);
    assert!(matches!(HZDLocal::new(&data), Err(Error::InvalidEncoding)));
}

#[test]
fn wrong_language_count_is_rejected() {
    let mut payload = vec![9u8; 16];
    payload.extend_from_slice(&2u32.to_le_bytes());
    payload.extend_from_slice(&[1, 2, 3, 4, 5, 6]);
    payload.extend_from_slice(&20u32.to_le_bytes()); // one language short
    let data = chunk(CUTSCENE_MAGIC, &payload);
    assert!(matches!(HZDLocal::new(&data), Err(Error::InvalidStructure)));
}

#[test]
fn duplicate_group_codes_are_rejected() {
    let mut gs = all_group_codes(Vec::new());
    gs[1].0 = 0; // two groups claim the same language
    let data = chunk(CUTSCENE_MAGIC, &cutscene_payload(&gs));
    assert!(matches!(HZDLocal::new(&data), Err(Error::InvalidStructure)));
}

#[test]
fn update_unchanged_locals_is_identity() {
    let data = simple_file();
    let mut local = HZDLocal::new(&data).unwrap();
    let locals = local.get_locals();
    local.update_locals(locals).unwrap();
    assert_eq!(local.write(), data);
}

#[test]
fn update_edits_one_string() {
    let data = simple_file();
    let mut local = HZDLocal::new(&data).unwrap();
    let mut locals = local.get_locals();
    match &mut locals[0].variant {
        LocalVariants::Localized(map) => {
            *map.get_mut(Language::English) = b"Hi".to_vec();
        },
        LocalVariants::Cutscene(_) => panic!("expected a localized resource"),
    }
    local.update_locals(locals).unwrap();
    let mut expected = chunk(LOCALIZED_MAGIC, &localized_payload(&["Hi", "Bonjour"]));
    expected.extend_from_slice(&chunk(0x1234_5678, &[9, 8, 7, 6]));
    assert_eq!(local.write(), expected);
}

#[test]
fn update_with_bad_index_fails() {
    let data = simple_file();
    let mut local = HZDLocal::new(&data).unwrap();
    let mut locals = local.get_locals();
    locals[0].index = 9;
    assert_eq!(
        local.update_locals(locals),
        Err(HZDError::InvalidLocalResourceIdx { max: 2, got: 9 }),
    );
}

#[test]
fn cutscene_line_count_must_match() {
    let gs = all_group_codes(vec![("One", 1), ("Two", 2)]);
    let data = chunk(CUTSCENE_MAGIC, &cutscene_payload(&gs));
    let mut local = HZDLocal::new(&data).unwrap();
    let mut locals = local.get_locals();
    match &mut locals[0].variant {
        LocalVariants::Cutscene(map) => {
            map.get_mut(Language::English).push(b"Three".to_vec());
        },
        LocalVariants::Localized(_) => panic!("expected a cutscene resource"),
    }
    assert_eq!(
        local.update_locals(locals),
        Err(HZDError::CutsceneLinesDoesntMatch { lang: Language::English, expected: 2, got: 3 }),
    );
    // the failing update left the container untouched
    assert_eq!(local.write(), data);
}

#[test]
fn document_export_has_selected_languages() {
    // single localized resource, two languages selected: the document
    // carries both strings under their language keys
    let data = simple_file();
    let local = HZDLocal::new(&data).unwrap();
    let doc = local.internal_serialize(&vec![Language::English, Language::French]);
    assert_eq!(doc.len(), 1);
    assert_eq!(doc[0].index, 0);
    match &doc[0].variant {
        SerdeLocalVariants::Localized(pairs) => {
            assert_eq!(
                pairs,
                &vec![
                    (Language::English, b"Hello".to_vec()),
                    (Language::French, b"Bonjour".to_vec()),
                ],
            );
        },
        SerdeLocalVariants::Cutscene(_) => panic!("expected a localized entry"),
    }
}

#[test]
fn document_import_edits_only_named_field() {
    // import an edited document and re-encode: the output differs from
    // the original only in that one narrow string and the recomputed size
    let data = simple_file();
    let mut local = HZDLocal::new(&data).unwrap();
    let doc = vec![
        SerdeLocal {
            index: 0,
            variant: SerdeLocalVariants::Localized(vec![(Language::English, b"Hi".to_vec())]),
        },
    ];
    local.internal_deserialize_and_update(doc).unwrap();
    let mut expected = chunk(LOCALIZED_MAGIC, &localized_payload(&["Hi", "Bonjour"]));
    expected.extend_from_slice(&chunk(0x1234_5678, &[9, 8, 7, 6]));
    assert_eq!(local.write(), expected);
}

#[test]
fn document_roundtrip_is_identity() {
    let mut data = chunk(LOCALIZED_MAGIC, &localized_payload(&["Hello", "Bonjour"]));
    data.extend_from_slice(
        &chunk(CUTSCENE_MAGIC, &cutscene_payload(&all_group_codes(vec![("A line", 3)]))),
    );
    let mut local = HZDLocal::new(&data).unwrap();
    let doc = local.internal_serialize(&Language::all_variants());
    local.internal_deserialize_and_update(doc).unwrap();
    assert_eq!(local.write(), data);
}

#[test]
fn line_list_roundtrip_is_identity() {
    let mut data = chunk(LOCALIZED_MAGIC, &localized_payload(&["Hello", "Bonjour"]));
    data.extend_from_slice(
        &chunk(
            CUTSCENE_MAGIC,
            &cutscene_payload(&all_group_codes(vec![("A line", 3), ("B line", 4)])),
        ),
    );
    for add_names in [false, true] {
        let mut local = HZDLocal::new(&data).unwrap();
        let (lines, deinfo) = local.internal_serialize_to_lines(
            &Language::all_variants(),
            add_names,
        );
        let escaped: Vec<Vec<u8>> = lines.into_iter().map(|l| l.replace_eol()).collect();
        let restored: Vec<Vec<u8>> = escaped.into_iter().map(|l| l.replace_eol_back()).collect();
        local
            .internal_deserialize_and_update_from_lines(&restored, deinfo)
            .unwrap();
        assert_eq!(local.write(), data);
    }
}

#[test]
fn embedded_line_break_becomes_one_line() {
    // a carriage-return+newline inside a string leaves exactly one
    // physical line carrying the literal token, and import reverses it
    let gs = all_group_codes(vec![("Hi\r\nthere", 5)]);
    let data = chunk(CUTSCENE_MAGIC, &cutscene_payload(&gs));
    let mut local = HZDLocal::new(&data).unwrap();
    let (lines, deinfo) = local.internal_serialize_to_lines(&vec![Language::English], false);
    assert_eq!(lines.len(), 1);
    let escaped = lines[0].clone().replace_eol();
    assert!(!escaped.contains(&b'\n'));
    assert!(!escaped.contains(&b'\r'));
    assert_eq!(escaped, b"Hi<cf>there".to_vec());
    let restored = vec![escaped.replace_eol_back()];
    local
        .internal_deserialize_and_update_from_lines(&restored, deinfo)
        .unwrap();
    assert_eq!(local.write(), data);
}

#[test]
fn line_count_mismatch_fails_without_write() {
    let data = simple_file();
    let mut local = HZDLocal::new(&data).unwrap();
    let (mut lines, deinfo) = local.internal_serialize_to_lines(
        &vec![Language::English, Language::French],
        false,
    );
    let expected_count = deinfo.count;
    lines.pop();
    assert_eq!(
        local.internal_deserialize_and_update_from_lines(&lines, deinfo),
        Err(
            HZDError::LineCountDoesntMatchWithInput {
                expected: expected_count,
                got: expected_count - 1,
            },
        ),
    );
    assert_eq!(local.write(), data);
}

#[test]
fn bad_line_range_fails() {
    let data = simple_file();
    let mut local = HZDLocal::new(&data).unwrap();
    let (lines, mut deinfo) = local.internal_serialize_to_lines(&vec![Language::English], false);
    deinfo.info[0] = TxtLocalInfo {
        index: 0,
        start: 0,
        end: 500,
        variant: TxtLocalVariants::Localized,
    };
    assert_eq!(
        local.internal_deserialize_and_update_from_lines(&lines, deinfo),
        Err(HZDError::InvalidIndex { max: 1, invalid_index: 0 }),
    );
}

#[test]
fn oversize_replacement_string_fails() {
    let data = simple_file();
    let mut local = HZDLocal::new(&data).unwrap();
    let mut locals = local.get_locals();
    match &mut locals[0].variant {
        LocalVariants::Localized(map) => {
            *map.get_mut(Language::English) = vec![b'x'; 70_000];
        },
        LocalVariants::Cutscene(_) => panic!("expected a localized resource"),
    }
    assert_eq!(
        local.update_locals(locals),
        Err(HZDError::StringTooLong { got: 70_000, max: 0xffff }),
    );
}

#[test]
fn content_equals_tracks_changes() {
    let data = simple_file();
    let a = HZDLocal::new(&data).unwrap();
    let mut b = HZDLocal::new(&data).unwrap();
    assert!(a.content_equals(&b));
    let doc = vec![
        SerdeLocal {
            index: 0,
            variant: SerdeLocalVariants::Localized(vec![(Language::English, b"Hi".to_vec())]),
        },
    ];
    b.internal_deserialize_and_update(doc).unwrap();
    assert!(!a.content_equals(&b));
}

#[test]
fn missing_name_prefix_is_tolerated_on_import() {
    // the envelope says names were embedded, but the lines carry none:
    // the strip falls back to the whole line
    let data = simple_file();
    let mut local = HZDLocal::new(&data).unwrap();
    let (lines, mut deinfo) = local.internal_serialize_to_lines(
        &vec![Language::English, Language::French],
        false,
    );
    deinfo.add_language_names = true;
    local
        .internal_deserialize_and_update_from_lines(&lines, deinfo)
        .unwrap();
    assert_eq!(local.write(), data);
}

#[test]
fn kind_names() {
    let data = simple_file();
    let local = HZDLocal::new(&data).unwrap();
    assert_eq!(local.chunks[0].variant.name(), "Localized");
    assert_eq!(local.chunks[1].variant.name(), "Others");
    let locals = local.get_locals();
    assert_eq!(locals[0].variant.name(), "Localized");
}
