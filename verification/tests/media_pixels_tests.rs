use wavecore::media::{
    decode_wav, encode_wav, test_pattern_pixels, EndAction, MediaError, MediaType, NetworkState, PlaybackState, ReadyState,
};
use wavecore::pixels::{blend, parse_color, to_ppm, to_u32_buffer, Rgba};

#[test]
fn wav_encode_then_decode_gives_the_samples_back() {
    let samples: Vec<i16> = vec![0, 1, -1, 32767, -32768, 1234, -4321, 7];
    let wav = encode_wav(2, 44100, &samples);
    assert_eq!(wav.len(), 44 + samples.len() * 2);
    assert_eq!(&wav[0..4], b"RIFF");
    assert_eq!(&wav[8..12], b"WAVE");
    let pcm = decode_wav(&wav).unwrap();
    assert_eq!(pcm.channels, 2);
    assert_eq!(pcm.sample_rate, 44100);
    assert_eq!(pcm.bits_per_sample, 16);
    assert_eq!(pcm.samples, samples);
}

#[test]
fn wav_header_bytes() {
    let wav = encode_wav(0, 8000, &vec![0x0102]);
    // one channel when none is given; byte rate 16000, block align 2
    assert_eq!(
        wav,
        vec![
            b'R', b'I', b'F', b'F', 38, 0, 0, 0, b'W', b'A', b'V', b'E', b'f', b'm', b't', b' ', 16, 0, 0, 0, 1, 0, 1,
            0, 0x40, 0x1f, 0, 0, 0x80, 0x3e, 0, 0, 2, 0, 16, 0, b'd', b'a', b't', b'a', 2, 0, 0, 0, 2, 1,
        ]
    );
}

#[test]
fn wav_errors() {
    assert_eq!(decode_wav(b"not-a-wave"), Err(MediaError::BufferTooShort));
    let mut wav = encode_wav(1, 8000, &vec![0; 4]);
    wav[0] = b'X';
    assert_eq!(decode_wav(&wav), Err(MediaError::InvalidWavHeader));
    let mut wav = encode_wav(1, 8000, &vec![0; 4]);
    wav[20] = 3; // IEEE float format
    assert_eq!(decode_wav(&wav), Err(MediaError::UnsupportedFormat("WAV audio format 3".to_string())));
    let mut wav = encode_wav(1, 8000, &vec![0; 4]);
    wav[34] = 24;
    assert_eq!(decode_wav(&wav), Err(MediaError::UnsupportedFormat("24 bits per sample".to_string())));
    let mut wav = encode_wav(1, 8000, &vec![0; 4]);
    wav[36] = b'x'; // the data chunk is no longer found
    assert_eq!(decode_wav(&wav), Err(MediaError::InvalidWavHeader));
}

#[test]
fn wav_eight_bit_samples_are_centred() {
    let mut wav = encode_wav(1, 8000, &vec![0; 2]);
    wav[34] = 8;
    let n = wav.len();
    wav[n - 4] = 0;
    wav[n - 3] = 128;
    wav[n - 2] = 255;
    wav[n - 1] = 129;
    let pcm = decode_wav(&wav).unwrap();
    assert_eq!(pcm.bits_per_sample, 8);
    assert_eq!(pcm.samples, vec![-128, 0, 127, 1]);
}

#[test]
fn wav_data_chunk_cut_to_the_bytes_present() {
    let mut wav = encode_wav(1, 8000, &vec![5, 6, 7, 8]);
    wav[40] = 100; // the data chunk claims more bytes than there are
    let pcm = decode_wav(&wav).unwrap();
    assert_eq!(pcm.samples, vec![5, 6, 7, 8]);
}

#[test]
fn media_state_numbers() {
    assert_eq!(ReadyState::HaveNothing.value(), 0);
    assert_eq!(ReadyState::HaveEnoughData.value(), 4);
    assert_eq!(NetworkState::Idle.value(), 1);
    assert_eq!(NetworkState::NoSource.value(), 3);
}

#[test]
fn video_test_pattern() {
    let px = test_pattern_pixels(320, 240, 60);
    assert_eq!(px.len(), 320 * 240);
    assert_eq!(px[0], 0xFF3C3C00);
    // x = 1, y = 2
    assert_eq!(px[2 * 320 + 1], 0xFF3D3E03);
    assert_eq!(px[319], 0xFF7B3C3F);
}

#[test]
fn css_colors() {
    assert_eq!(parse_color("  RED "), Some(Rgba(255, 0, 0, 255)));
    assert_eq!(parse_color("transparent"), Some(Rgba(0, 0, 0, 0)));
    assert_eq!(parse_color("grey"), Some(Rgba(128, 128, 128, 255)));
    assert_eq!(parse_color("#0f8"), Some(Rgba(0, 255, 136, 255)));
    assert_eq!(parse_color("#00FF00"), Some(Rgba(0, 255, 0, 255)));
    assert_eq!(parse_color("#11223380"), Some(Rgba(0x11, 0x22, 0x33, 0x80)));
    assert_eq!(parse_color("#+f0000"), Some(Rgba(15, 0, 0, 255)));
    assert_eq!(parse_color("#12"), None);
    assert_eq!(parse_color("#ggg"), None);
    assert_eq!(parse_color("chartreuse"), None);
}

#[test]
fn blending() {
    let bg = Rgba(0, 0, 0, 255);
    assert_eq!(blend(bg, Rgba(255, 255, 255, 255), 255), Rgba(255, 255, 255, 255));
    assert_eq!(blend(bg, Rgba(255, 255, 255, 255), 0), Rgba(0, 0, 0, 255));
    assert_eq!(blend(Rgba(100, 100, 100, 255), Rgba(200, 0, 50, 255), 128), Rgba(150, 49, 74, 255));
    assert_eq!(blend(Rgba(10, 20, 30, 0), Rgba(200, 0, 50, 0), 255), Rgba(10, 20, 30, 255));
}

#[test]
fn pixel_encodings() {
    let px = vec![Rgba(1, 2, 3, 4), Rgba(255, 0, 128, 255)];
    assert_eq!(to_u32_buffer(&px), vec![0x010203, 0xFF0080]);
    let ppm = to_ppm(2, 1, &px);
    let mut expected = b"P6\n2 1\n255\n".to_vec();
    expected.extend_from_slice(&[1, 2, 3, 255, 0, 128]);
    assert_eq!(ppm, expected);
}

#[test]
fn playback_state_play_pause_and_end() {
    let mut audio = PlaybackState::new(MediaType::Audio);
    assert!(audio.paused && !audio.ended && !audio.is_advancing());
    assert_eq!(audio.ready_state, ReadyState::HaveNothing);
    assert!(!audio.play());
    assert!(audio.is_advancing());
    assert_eq!(audio.ready_state, ReadyState::HaveEnoughData);
    assert_eq!(audio.reach_end(), EndAction::Stop);
    assert!(audio.ended && audio.paused);
    assert!(audio.play());
    assert!(!audio.ended && !audio.paused);
    audio.pause();
    assert!(audio.paused && !audio.is_advancing());
    audio.looping = true;
    assert_eq!(audio.reach_end(), EndAction::Rewind);
    assert!(!audio.ended);
}

#[test]
fn playback_state_loads_wav_only_into_audio() {
    let wav = encode_wav(2, 48000, &vec![1, 2, 3, 4, 5, 6]);
    let mut audio = PlaybackState::new(MediaType::Audio);
    let pcm = audio.load_wav(&wav).unwrap();
    assert_eq!(pcm.frame_count(), 3);
    assert_eq!(audio.ready_state, ReadyState::HaveEnoughData);
    assert_eq!(audio.network_state, NetworkState::Idle);

    let mut broken = PlaybackState::new(MediaType::Audio);
    assert!(broken.load_wav(b"not-a-wave").is_err());
    assert_eq!(broken.ready_state, ReadyState::HaveNothing);
    assert_eq!(broken.network_state, NetworkState::NoSource);

    let mut video = PlaybackState::new(MediaType::Video);
    assert_eq!(
        video.load_wav(&wav),
        Err(MediaError::UnsupportedFormat("WAV audio cannot be loaded into a video element".to_string()))
    );
    assert_eq!(video.network_state, NetworkState::Idle);
}

#[test]
fn audio_element_loads_real_wav_buffer_and_metadata() {
    let frames = (0.1f64 * 48_000.0) as usize;
    let samples: Vec<i16> = (0..frames)
        .map(|i| {
            let t = i as f64 / 48_000.0;
            ((2.0 * std::f64::consts::PI * 220.0 * t).sin() * 0.5 * i16::MAX as f64) as i16
        })
        .collect();
    let wav = encode_wav(1, 48_000, &samples);
    let mut audio = PlaybackState::new(MediaType::Audio);

    let pcm = audio.load_wav(&wav).unwrap();

    assert_eq!(audio.ready_state, ReadyState::HaveEnoughData);
    assert_eq!(audio.network_state, NetworkState::Idle);
    assert_eq!(pcm.frame_count(), 4_800);
    let duration = pcm.frame_count() as f64 / pcm.sample_rate as f64;
    assert!((duration - 0.1).abs() < 0.001);
}

#[test]
fn invalid_audio_load_moves_element_to_no_source_state() {
    let mut audio = PlaybackState::new(MediaType::Audio);
    assert!(audio.load_wav(b"not-a-wave").is_err());
    assert_eq!(audio.ready_state, ReadyState::HaveNothing);
    assert_eq!(audio.network_state, NetworkState::NoSource);
}
