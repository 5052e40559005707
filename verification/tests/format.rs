use postio_ui::format::{human_size, human_size_bound, mail_weight, names};
use postio_ui::model::MailFootprint;

fn nothing() -> MailFootprint {
    MailFootprint { local_bytes: 0, total_bytes: 0, attachment_bytes: 0, complete: false }
}

#[test]
fn sizes_read_the_way_the_canvas_writes_them() {
    assert_eq!(human_size(0), "0 B");
    assert_eq!(human_size(512), "512 B");
    assert_eq!(human_size(1024), "1.0 KB");
    assert_eq!(human_size(11 * 1024), "11 KB");
    assert_eq!(human_size(1024 * 1024), "1.0 MB");
    assert_eq!(human_size(3 * 1024 * 1024 * 1024), "3.0 GB");
}

#[test]
fn an_incomplete_count_says_so_rather_than_claiming_a_total() {
    assert_eq!(human_size_bound(1_503_238_553, false), "over 1.4 GB");
    assert_eq!(human_size_bound(1_503_238_553, true), "1.4 GB");
}

#[test]
fn an_account_row_says_what_its_mail_weighs_and_what_attachments_would_add() {
    let footprint = MailFootprint {
        total_bytes: 12_884_901_888,
        attachment_bytes: 11_811_160_064,
        local_bytes: 933_232_640,
        complete: true,
    };

    assert_eq!(
        mail_weight(&footprint, false).as_deref(),
        Some("890 MB downloaded \u{b7} attachments would add 11 GB"),
        "a policy that is not fetching payloads owes the cost of switching"
    );
    assert_eq!(
        mail_weight(&footprint, true).as_deref(),
        Some("890 MB of 12 GB downloaded \u{b7} attachments included"),
        "a policy that is fetching them has a total worth showing against"
    );
}

#[test]
fn a_row_whose_totals_are_still_being_counted_hedges_every_one_of_them() {
    let counting = MailFootprint {
        total_bytes: 12_884_901_888,
        attachment_bytes: 11_811_160_064,
        local_bytes: 933_232_640,
        complete: false,
    };

    assert_eq!(
        mail_weight(&counting, false).as_deref(),
        Some("890 MB downloaded \u{b7} attachments would add over 11 GB"),
    );
    assert_eq!(
        mail_weight(&counting, true).as_deref(),
        Some("890 MB of over 12 GB downloaded \u{b7} attachments included"),
    );
}

#[test]
fn a_row_with_nothing_to_weigh_makes_no_claim_at_all() {
    assert_eq!(mail_weight(&nothing(), false), None);
    assert_eq!(mail_weight(&nothing(), true), None);

    let no_payloads = MailFootprint {
        total_bytes: 933_232_640,
        attachment_bytes: 0,
        local_bytes: 933_232_640,
        complete: true,
    };
    assert_eq!(
        mail_weight(&no_payloads, false).as_deref(),
        Some("890 MB downloaded")
    );
}

/// What the same size reads as through floating point.
fn through_floats(bytes: u64) -> String {
    const KB: f64 = 1024.0;
    let size = bytes as f64;
    if size < KB {
        return format!("{bytes} B");
    }
    let (value, unit) = if size < KB * KB {
        (size / KB, "KB")
    } else if size < KB * KB * KB {
        (size / (KB * KB), "MB")
    } else {
        (size / (KB * KB * KB), "GB")
    };
    if value >= 10.0 {
        format!("{value:.0} {unit}")
    } else {
        format!("{value:.1} {unit}")
    }
}

#[test]
fn sizes_agree_with_floating_point_everywhere_it_is_tried() {
    for bytes in [
        0, 1, 1023, 1024, 1025, 1075, 1076, 1280, 1331, 1536, 10_239, 10_240, 10_241, 10_752, 11_776,
        1_048_575, 1_048_576, 1_310_720, 1_153_434, 10_485_759, 10_485_760, 11_010_048, 1_073_741_823,
        1_073_741_824, 1_342_177_280, 10_737_418_240, 11_274_289_152, u64::MAX, u64::MAX / 2,
        9_007_199_254_740_993, 18_014_398_509_481_985,
    ] {
        assert_eq!(human_size(bytes), through_floats(bytes), "{bytes}");
    }
    let mut seed: u64 = 7;
    for _ in 0..2000 {
        seed = seed.wrapping_mul(6364136223846793005).wrapping_add(1442695040888963407);
        let bytes = seed >> (seed % 64);
        assert_eq!(human_size(bytes), through_floats(bytes), "{bytes}");
    }
}

#[test]
fn account_names_read_as_a_list() {
    assert_eq!(names(&[]), "");
    assert_eq!(names(&["Work".to_owned()]), "Work");
    assert_eq!(names(&["Work".to_owned(), "Home".to_owned(), "Lab".to_owned()]), "Work, Home and Lab");
}
