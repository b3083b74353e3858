use dloc::detect::{detect_game, GameDetection};
use dloc::error::Error;

fn chunk(magic: u64, payload: &[u8]) -> Vec<u8> {
    let mut out = magic.to_le_bytes().to_vec();
    out.extend_from_slice(&(payload.len() as u32).to_le_bytes());
    out.extend_from_slice(payload);
    out
}

#[test]
fn detects_each_game() {
    let hzd = chunk(dloc::hzd::LOCALIZED_MAGIC, &[0; 4]);
    assert_eq!(detect_game(&hzd), Ok(GameDetection::Hzd));

    let hzd_cut = chunk(dloc::hzd::CUTSCENE_MAGIC, &[0; 2]);
    assert_eq!(detect_game(&hzd_cut), Ok(GameDetection::Hzd));

    let ds = chunk(dloc::ds::LOCALIZED_MAGIC, &[0; 4]);
    assert_eq!(detect_game(&ds), Ok(GameDetection::Ds));
}

#[test]
fn mixed_and_unknown() {
    let mut both = chunk(dloc::hzd::LOCALIZED_MAGIC, &[0; 4]);
    both.extend_from_slice(&chunk(dloc::ds::LOCALIZED_MAGIC, &[0; 4]));
    assert_eq!(detect_game(&both), Ok(GameDetection::Mixed));

    let other = chunk(0x1111_2222, &[0; 4]);
    assert_eq!(detect_game(&other), Ok(GameDetection::Unknown));
    assert_eq!(detect_game(&Vec::new()), Ok(GameDetection::Unknown));
}

#[test]
fn header_reads_follow_stream_rules() {
    // fewer than a full magic: a clean end of stream
    assert_eq!(detect_game(&vec![1, 2, 3]), Ok(GameDetection::Unknown));
    // a full magic but a cut-off size field: an error
    assert_eq!(detect_game(&vec![0; 10]), Err(Error::UnexpectedEof));
    // a size that runs past the end only stops the scan
    let mut data = chunk(dloc::hzd::LOCALIZED_MAGIC, &[0; 4]);
    data.extend_from_slice(&(dloc::ds::LOCALIZED_MAGIC).to_le_bytes());
    data.extend_from_slice(&999u32.to_le_bytes());
    assert_eq!(detect_game(&data), Ok(GameDetection::Mixed));
}
