use postio_ui::editor::markdown::sequences;

#[test]
fn every_sequence_reaches_a_formatting_command_and_nothing_else() {
    const FORMATTING: [&str; 5] = [
        "bold",
        "italic",
        "bullet_list",
        "numbered_list",
        "quote_block",
    ];
    for sequence in sequences() {
        assert!(
            FORMATTING.contains(&sequence.command),
            "{:?} reaches {:?}, which is not one of the editor's \
             formatting commands",
            sequence.marker,
            sequence.command
        );
    }
}

#[test]
fn no_heading_sequence_until_there_is_a_heading_command() {
    assert!(
        !sequences().iter().any(|s| s.marker.starts_with('#')),
        "a heading sequence arrived without a heading command"
    );
}

#[test]
fn longer_markers_are_listed_before_the_shorter_ones_they_contain() {
    for (index, sequence) in sequences().iter().enumerate() {
        for earlier in &sequences()[..index] {
            if earlier.trigger != sequence.trigger {
                continue;
            }
            assert!(
                !sequence.marker.starts_with(earlier.marker),
                "{:?} is listed after {:?}, which is a prefix of it, so \
                 the shorter marker would always match first",
                sequence.marker,
                earlier.marker
            );
        }
    }
}

#[test]
fn the_reachable_set_is_the_formatting_set_without_duplicates() {
    let mut commands: Vec<&str> = sequences().iter().map(|s| s.command).collect();
    commands.sort_unstable();
    commands.dedup();
    assert_eq!(
        commands,
        [
            "bold",
            "bullet_list",
            "italic",
            "numbered_list",
            "quote_block"
        ],
        "the set of commands markdown input can reach has changed"
    );
}
