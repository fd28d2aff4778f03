use spektra::audio::AudioInfo;

fn info(codec: &str, bit_rate: i64, sample_rate: u32, channels: u16) -> AudioInfo {
    AudioInfo { path: "/tmp/a.mp3".to_string(), codec: codec.to_string(), sample_rate, channels, bit_rate }
}

#[test]
fn desc_lists_known_properties() {
    assert_eq!(info("mp3", 320000, 44100, 2).desc(), "mp3, 320 kbps, 44100 Hz, 2 ch");
}

#[test]
fn desc_rounds_bit_rate() {
    assert_eq!(info("aac", 127500, 0, 0).desc(), "aac, 128 kbps");
    assert_eq!(info("aac", 127499, 0, 0).desc(), "aac, 127 kbps");
    assert_eq!(info("aac", 1, 0, 0).desc(), "aac, 0 kbps");
}

#[test]
fn desc_omits_unknown_properties() {
    assert_eq!(info("flac", 0, 0, 0).desc(), "flac");
    assert_eq!(info("flac", -5, 96000, 0).desc(), "flac, 96000 Hz");
    assert_eq!(info("", 0, 0, 1).desc(), ", 1 ch");
}
