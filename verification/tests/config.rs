//! Configuration presets and cover-traffic ranges.

use ppose::config::Config;
use ppose::cover::CoverMode;
use ppose::session::{cover_payload_len, schedule_next_cover};

#[test]
fn defaults() {
    let c = Config::default();
    assert_eq!(c.mtu, 1200);
    assert_eq!(c.cover, CoverMode::Off);
}

#[test]
fn balanced_preset() {
    let c = Config::balanced();
    assert_eq!(c.cover, CoverMode::Balanced);
    assert_eq!(c.mtu, Config::default().mtu);
    assert_eq!(c.max_onion_hops, 3);
    assert_eq!(c.wire_version, 0x03);
}

#[test]
fn ranges_are_well_formed() {
    for mode in [CoverMode::Off, CoverMode::Balanced, CoverMode::Stealth] {
        let (min, max) = mode.payload_len_range();
        assert!(min <= max, "{mode:?} range must be non-empty: {min}..={max}");
    }
    assert_eq!(CoverMode::Off.payload_len_range(), (0, 0));
    assert_eq!(CoverMode::Off.interval_range(), None);
}

#[test]
fn interval_ranges_are_well_formed() {
    for mode in [CoverMode::Balanced, CoverMode::Stealth] {
        let (min, max) = mode.interval_range().unwrap();
        assert!(min <= max, "{mode:?} interval range must be non-empty");
    }
}

#[test]
fn active_modes_have_an_interval() {
    assert!(CoverMode::Balanced.interval_range().is_some());
    assert!(CoverMode::Stealth.interval_range().is_some());
}

#[test]
fn cover_length_and_deadline_formulas() {
    assert_eq!(cover_payload_len(16, 512, 1049, 0), 16);
    assert_eq!(cover_payload_len(16, 512, 1049, 500), 16 + 500 % 497);
    assert_eq!(cover_payload_len(16, 512, 1049, 496), 512);
    assert_eq!(cover_payload_len(16, 512, 100, 1000), 16 + 1000 % 85);
    assert_eq!(cover_payload_len(16, 512, 100, 84), 100);
    assert_eq!(cover_payload_len(16, 512, 10, 7), 10);
    assert_eq!(cover_payload_len(0, 0, 1049, 99), 0);
    assert_eq!(schedule_next_cover(1_000, None, 5), 1_000);
    assert_eq!(schedule_next_cover(1_000, Some((120, 280)), 5), 1_125);
    assert_eq!(schedule_next_cover(1_000, Some((120, 280)), 165), 1_124);
    assert_eq!(schedule_next_cover(1_000, Some((120, 280)), 160), 1_280);
    assert_eq!(schedule_next_cover(1_000, Some((30, 30)), 9), 1_030);
}
