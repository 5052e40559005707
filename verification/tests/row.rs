use postio_ui::model::Density;
use postio_ui::row::Metrics;

#[test]
fn a_tighter_density_is_smaller_in_every_measure() {
    let sizes = |density| {
        let m = Metrics::for_density(density);
        [m.pad_y, m.inset, m.avatar, m.gap, m.subject_gap, m.hints_gap]
    };
    for (tight, roomy) in [(Density::Compact, Density::Comfortable), (Density::Comfortable, Density::Airy)] {
        for (smaller, larger) in sizes(tight).iter().zip(sizes(roomy)) {
            assert!(*smaller < larger);
        }
    }
}

#[test]
fn only_the_tightest_density_drops_the_snippet() {
    assert!(Metrics::for_density(Density::Airy).snippet);
    assert!(Metrics::for_density(Density::Comfortable).snippet);
    assert!(!Metrics::for_density(Density::Compact).snippet);
}

#[test]
fn the_comfortable_row_is_the_one_it_is_drawn_to() {
    let metrics = Metrics::for_density(Density::Comfortable);
    assert_eq!((metrics.pad_y, metrics.inset, metrics.avatar, metrics.gap), (8, 18, 26, 10));
}
