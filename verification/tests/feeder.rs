use ledstrip::transaction::parse;
use ledstrip::ws2812b::feed_frame;
use ledstrip::ws2812b::Rgb;
use ledstrip::ws2812b::StripSet;

#[test]
fn feeder_emits_pixels_then_sentinel_per_strip() {
    // Strip 0 has len=3, strip 1 has len=0: the frame holds strip 0's three
    // pixel words, the sentinel right after the last one, and nothing for
    // strip 1 at any position.
    let mut state = StripSet::zero();
    assert_eq!(state.set(0, 0, Rgb::new(1, 0, 0)), Ok(()));
    assert_eq!(state.set(0, 1, Rgb::new(0, 2, 0)), Ok(()));
    assert_eq!(state.set(0, 2, Rgb::new(0, 0, 3)), Ok(()));

    let words = feed_frame(&state);
    assert_eq!(
        words,
        vec![
            (0, Rgb::new(1, 0, 0).to_0grb()),
            (0, Rgb::new(0, 2, 0).to_0grb()),
            (0, Rgb::new(0, 0, 3).to_0grb()),
            (0, u32::MAX),
        ]
    );
}

#[test]
fn feeder_interleaves_strips_per_position() {
    // Position-outer, strip-inner: at each LED position every strip with
    // an active pixel emits before any strip's next position.
    let mut state = StripSet::zero();
    assert_eq!(state.set(0, 0, Rgb::new(1, 1, 1)), Ok(()));
    assert_eq!(state.set(0, 1, Rgb::new(2, 2, 2)), Ok(()));
    assert_eq!(state.set(1, 0, Rgb::new(3, 3, 3)), Ok(()));

    let words = feed_frame(&state);
    assert_eq!(
        words,
        vec![
            (0, Rgb::new(1, 1, 1).to_0grb()),
            (1, Rgb::new(3, 3, 3).to_0grb()),
            (1, u32::MAX),
            (0, Rgb::new(2, 2, 2).to_0grb()),
            (0, u32::MAX),
        ]
    );
}

#[test]
fn feeder_all_zero_set_emits_nothing() {
    let state = StripSet::zero();
    assert_eq!(feed_frame(&state), Vec::new());
}

#[test]
fn feeder_full_strip_ends_with_sentinel() {
    let mut state = StripSet::zero();
    for i in 0..70 {
        assert_eq!(state.set(2, i, Rgb::new(i as u8, 0, 0)), Ok(()));
    }
    let words = feed_frame(&state);
    assert_eq!(words.len(), 71);
    for (i, w) in words.iter().take(70).enumerate() {
        assert_eq!(*w, (2, Rgb::new(i as u8, 0, 0).to_0grb()));
    }
    assert_eq!(words[70], (2, u32::MAX));
}

#[test]
fn feeder_after_parse_matches_command() {
    let mut state = StripSet::zero();
    assert!(parse(b"t 3:1:10:20:30", &mut state).is_ok());
    let words = feed_frame(&state);
    assert_eq!(
        words,
        vec![
            (3, Rgb::zero().to_0grb()),
            (3, Rgb::new(10, 20, 30).to_0grb()),
            (3, u32::MAX),
        ]
    );
}
