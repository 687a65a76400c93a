use webpkit::tuning::{AlphaFilterMode, AlphaMethod, LossyTuning, Preset};

#[test]
fn default_is_the_cwebp_parity_baseline() {
    let t = LossyTuning::default();
    assert_eq!(t.sns_strength(), 50);
    assert_eq!(t.filter_strength(), 60);
    assert_eq!(t.segments(), 4);
    assert_eq!(t.filter_sharpness(), 0);
    assert_eq!(t.alpha_q(), 100);
    assert_eq!(t.alpha_method(), AlphaMethod::Compressed);
    assert_eq!(t.alpha_filter(), AlphaFilterMode::Best);
    // Neutral RD-knob defaults leave every output byte unchanged.
    assert!(!t.sharp_yuv());
    assert!(!t.smooth_segments());
    assert!(!t.freq_sharpen());
    assert!(t.exact(), "exact preserves hidden RGB by default");
    assert_eq!(t.pass(), 1);
    assert!(!t.jpeg_like());
    assert_eq!(t.partition_limit(), 0);
    assert_eq!(LossyTuning::new(), t, "new() equals default()");
}

#[test]
fn preset_default_is_the_baseline_and_others_shape_it() {
    assert_eq!(Preset::Default.tuning(), LossyTuning::default());
    let photo = Preset::Photo.tuning();
    assert_eq!(photo.sns_strength(), 80);
    assert_eq!(photo.filter_strength(), 30);
    assert_eq!(photo.filter_sharpness(), 3);
    let text = Preset::Text.tuning();
    assert_eq!(text.sns_strength(), 0);
    assert_eq!(text.filter_strength(), 0);
    assert_eq!(text.segments(), 2);
    // A preset is a base: an explicit setter applied afterward wins.
    assert_eq!(
        Preset::Photo.tuning().with_sns_strength(10).sns_strength(),
        10
    );
}

#[test]
fn active_setters_validate_their_ranges() {
    let t = LossyTuning::new()
        .with_sns_strength(250)
        .with_segments(9)
        .with_filter_strength(255)
        .with_filter_sharpness(40);
    assert_eq!(t.sns_strength(), 100, "sns clamps to 100");
    assert_eq!(t.segments(), 4, "segments clamps to 4");
    assert_eq!(t.filter_strength(), 100, "filter clamps to 100");
    assert_eq!(t.filter_sharpness(), 7, "sharpness clamps to 7");

    let low = LossyTuning::new().with_segments(0);
    assert_eq!(low.segments(), 1, "segments clamps up to 1");
}

#[test]
fn alpha_setters_validate_and_round_trip() {
    let t = LossyTuning::new()
        .with_alpha_q(200)
        .with_alpha_method(AlphaMethod::Raw)
        .with_alpha_filter(AlphaFilterMode::Fast);
    assert_eq!(t.alpha_q(), 100, "alpha_q clamps to 100");
    assert_eq!(t.alpha_method(), AlphaMethod::Raw);
    assert_eq!(t.alpha_filter(), AlphaFilterMode::Fast);
}

#[test]
fn rd_and_placeholder_setters_validate_and_round_trip() {
    let t = LossyTuning::new()
        .with_sharp_yuv(true)
        .with_smooth_segments(true)
        .with_freq_sharpen(true)
        .with_exact(false)
        .with_pass(50)
        .with_jpeg_like(true)
        .with_partition_limit(250);
    assert!(t.sharp_yuv());
    assert!(t.smooth_segments());
    assert!(t.freq_sharpen());
    assert!(!t.exact());
    assert_eq!(t.pass(), 10, "pass clamps to 10");
    assert!(t.jpeg_like());
    assert_eq!(t.partition_limit(), 100, "partition_limit clamps to 100");

    assert_eq!(
        LossyTuning::new().with_pass(0).pass(),
        1,
        "pass clamps up to 1"
    );
}
