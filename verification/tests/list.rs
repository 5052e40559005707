use postio_ui::list::{splices, Delivered, ListRow, ListWindow, Lookup, Splice, CACHE_PAGES, PAGE_SIZE};
use postio_ui::model::{MessageId, RowKind, ThreadId};

/// The ids a page holds, first to last.
fn held(window: &ListWindow<Fixture>, page: u32) -> Vec<i64> {
    (page * PAGE_SIZE..(page + 1) * PAGE_SIZE)
        .filter_map(|position| window.peek(position))
        .map(|id| id.get())
        .collect()
}

#[derive(Debug, Clone, PartialEq, Eq)]
struct Fixture {
    id: MessageId,
    reconciled: bool,
}

fn row(position: u32) -> Fixture {
    Fixture {
        id: MessageId::new(position as i64 + 1),
        reconciled: false,
    }
}

fn page_rows(page: u32, total: u32) -> Vec<Fixture> {
    let start = page * PAGE_SIZE;
    let end = (start + PAGE_SIZE).min(total);
    (start..end).map(row).collect()
}

impl ListRow for Fixture {
    fn id(&self) -> Option<MessageId> {
        Some(self.id)
    }

    fn reconcile(existing: &Self, incoming: Self) -> Self {
        let _ = existing;
        Fixture {
            reconciled: true,
            ..incoming
        }
    }
}

fn deliver_fresh(window: &mut ListWindow<Fixture>, page: u32, total: u32) -> Delivered {
    window.deliver(window.generation(), page, page_rows(page, total))
}

#[test]
fn resident_rows_are_read_without_asking_for_anything() {
    let mut window: ListWindow<Fixture> = ListWindow::new();
    window.reset(10_000);
    deliver_fresh(&mut window, 0, 10_000);
    deliver_fresh(&mut window, 3, 10_000);

    let mut held: Vec<MessageId> = window.resident().into_iter().map(|row| row.id).collect();
    held.sort();
    let mut expected: Vec<MessageId> = page_rows(0, 10_000)
        .into_iter()
        .chain(page_rows(3, 10_000))
        .map(|row| row.id)
        .collect();
    expected.sort();
    assert_eq!(held, expected);
    for page in [1, 2, 4] {
        assert!(!window.is_pending(page), "page {page} was asked for");
    }
}

fn ids(values: &[i64]) -> Vec<MessageId> {
    values.iter().map(|value| MessageId::new(*value)).collect()
}

fn applied(old: &[i64], new: &[i64]) -> (Vec<i64>, Vec<Splice>) {
    let before: Vec<Option<MessageId>> = old.iter().map(|v| Some(MessageId::new(*v))).collect();
    let script = splices(&before, &ids(new));
    let mut current: Vec<i64> = old.to_vec();
    for step in &script {
        match *step {
            Splice::Remove { at, count } => {
                current.drain(at as usize..(at + count) as usize);
            }
            Splice::Insert { at, count, from } => {
                for offset in 0..count as usize {
                    current.insert(at as usize + offset, new[from + offset]);
                }
            }
        }
    }
    (current, script)
}

#[test]
fn an_unchanged_stretch_needs_no_splice_at_all() {
    let (after, script) = applied(&[1, 2, 3, 4], &[1, 2, 3, 4]);
    assert_eq!(after, vec![1, 2, 3, 4]);
    assert!(script.is_empty(), "{script:?}");
}

#[test]
fn mail_at_the_top_is_one_insert_and_what_fell_off_the_end_one_remove() {
    let (after, script) = applied(&[1, 2, 3, 4], &[9, 1, 2, 3]);
    assert_eq!(after, vec![9, 1, 2, 3]);
    assert_eq!(
        script,
        vec![
            Splice::Remove { at: 3, count: 1 },
            Splice::Insert {
                at: 0,
                count: 1,
                from: 0
            },
        ]
    );
}

#[test]
fn a_row_that_left_is_one_remove_and_the_next_page_fills_in_behind() {
    let (after, script) = applied(&[1, 2, 3, 4], &[1, 3, 4, 5]);
    assert_eq!(after, vec![1, 3, 4, 5]);
    assert_eq!(
        script,
        vec![
            Splice::Remove { at: 1, count: 1 },
            Splice::Insert {
                at: 3,
                count: 1,
                from: 3
            },
        ]
    );
}

#[test]
fn a_conversation_that_moved_to_the_top_is_taken_out_and_put_back() {
    let (after, script) = applied(&[1, 2, 3, 4, 5], &[4, 1, 2, 3, 5]);
    assert_eq!(after, vec![4, 1, 2, 3, 5]);
    assert_eq!(script.len(), 2, "{script:?}");
}

#[test]
fn neighbouring_changes_are_announced_as_one_run() {
    let (after, script) = applied(&[1, 2, 3, 4, 5, 6], &[7, 8, 1, 2, 5, 6]);
    assert_eq!(after, vec![7, 8, 1, 2, 5, 6]);
    assert_eq!(
        script,
        vec![
            Splice::Remove { at: 2, count: 2 },
            Splice::Insert {
                at: 0,
                count: 2,
                from: 0
            },
        ]
    );
}

#[test]
fn a_stretch_that_grew_or_shrank_at_the_end_splices_the_end() {
    assert_eq!(applied(&[1, 2], &[1, 2, 3]).0, vec![1, 2, 3]);
    assert_eq!(applied(&[1, 2, 3], &[1, 2]).0, vec![1, 2]);
    assert_eq!(applied(&[1, 2, 3], &[]).0, Vec::<i64>::new());
    assert_eq!(applied(&[], &[4, 5]).0, vec![4, 5]);
}

#[test]
fn a_position_nothing_was_known_about_is_replaced() {
    let before = vec![Some(MessageId::new(1)), None, Some(MessageId::new(3))];
    let script = splices(&before, &ids(&[1, 2, 3]));
    assert_eq!(
        script,
        vec![
            Splice::Remove { at: 1, count: 1 },
            Splice::Insert {
                at: 1,
                count: 1,
                from: 1
            },
        ]
    );
}

#[test]
fn any_old_stretch_splices_into_any_new_one() {
    let mut seed: u64 = 0x5eed;
    let mut next = move |bound: u64| {
        seed = seed
            .wrapping_mul(6364136223846793005)
            .wrapping_add(1442695040888963407);
        (seed >> 33) % bound
    };
    for _ in 0..1000 {
        let old: Vec<i64> = (1..=next(12) as i64).collect();
        let mut new: Vec<i64> = old.iter().copied().filter(|_| next(4) != 0).collect();
        for _ in 0..next(4) {
            let at = next(new.len() as u64 + 1) as usize;
            new.insert(at, 100 + next(50) as i64);
        }
        new.dedup();
        let mut seen = std::collections::HashSet::new();
        new.retain(|id| seen.insert(*id));
        if new.len() > 1 && next(3) == 0 {
            let a = next(new.len() as u64) as usize;
            let moved = new.remove(a);
            new.insert(0, moved);
        }
        assert_eq!(applied(&old, &new).0, new, "{old:?} -> {new:?}");
    }
}

#[test]
fn splicing_a_held_run_reflows_its_pages_and_keeps_the_total_honest() {
    let mut window: ListWindow<Fixture> = ListWindow::new();
    window.reset(200);
    for page in 0..2 {
        deliver_fresh(&mut window, page, 200);
    }
    deliver_fresh(&mut window, 3, 200);
    assert!(window.splice(0, 0, vec![row(999)]));
    assert_eq!(window.total(), 201);
    assert_eq!(window.peek(0), Some(MessageId::new(1000)));
    assert_eq!(window.peek(50), Some(MessageId::new(50)), "carried across");
    assert_eq!(held(&window, 0).len(), 50);
    assert_eq!(held(&window, 1).len(), 51 - 1, "the run keeps whole pages");
    assert_eq!(
        window.peek(100),
        Some(MessageId::new(100)),
        "the row pushed past the run's last page is held on a new short page"
    );
    assert!(
        !window.resident_pages().contains(&3),
        "a page past the run is one row out now, so it goes"
    );

    assert!(window.splice(10, 1, Vec::new()));
    assert_eq!(window.total(), 200);
    assert_eq!(window.peek(10), Some(MessageId::new(11)));
    assert_eq!(window.peek(49), Some(MessageId::new(50)));
}

#[test]
fn a_splice_outside_every_held_run_is_refused() {
    let mut window: ListWindow<Fixture> = ListWindow::new();
    window.reset(200);
    deliver_fresh(&mut window, 0, 200);
    assert!(!window.splice(120, 1, Vec::new()));
    assert_eq!(window.total(), 200);
    assert!(window.splice(50, 0, vec![row(500)]));
    assert_eq!(window.peek(50), Some(MessageId::new(501)));
}

#[test]
fn a_page_asked_for_before_a_splice_moved_it_is_not_applied_out_of_line() {
    let mut window: ListWindow<Fixture> = ListWindow::new();
    window.reset(200);
    deliver_fresh(&mut window, 0, 200);
    let Some(Lookup::Missing { request }) = window.row_at(120) else {
        panic!("page 2 should have been missing");
    };
    assert!(request.contains(&2));
    assert!(window.splice(0, 0, vec![row(999)]));
    let landed = deliver_fresh(&mut window, 2, 200);
    assert!(
        landed.stale,
        "page 2 was read at the old offsets, one row out from where it would land"
    );
    assert!(!window.is_pending(2), "and it can be asked for again");
}


#[test]
fn removing_a_row_shifts_the_rows_after_it_up_one() {
    let mut window: ListWindow<Fixture> = ListWindow::new();
    window.reset(120);
    for page in 0..3 {
        deliver_fresh(&mut window, page, 120);
    }
    assert!(window.remove_at(10));
    assert_eq!(window.total(), 119);
    assert_eq!(
        window.peek(10),
        Some(MessageId::new(12)),
        "the next row moved up"
    );
    assert_eq!(
        window.peek(49),
        Some(MessageId::new(51)),
        "across the page boundary"
    );
    assert_eq!(window.peek(118), Some(MessageId::new(120)), "to the end");
    assert_eq!(held(&window, 2).len(), 19, "the last page is one shorter");
}

#[test]
fn pages_past_a_gap_are_dropped_rather_than_left_one_row_out() {
    let mut window: ListWindow<Fixture> = ListWindow::new();
    window.reset(250);
    for page in [0, 1, 3] {
        deliver_fresh(&mut window, page, 250);
    }
    assert!(window.remove_at(5));
    assert_eq!(window.peek(49), Some(MessageId::new(51)));
    assert_eq!(
        held(&window, 1).len(),
        49,
        "the page before the gap is short: its last row is in the page nobody holds"
    );
    assert!(
        held(&window, 3).is_empty(),
        "a page past the gap is misaligned"
    );
    let wanted = match window.row_at(99) {
        Some(Lookup::Missing { request }) => request,
        _ => Vec::new(),
    };
    assert!(
        wanted.contains(&1),
        "the short page is asked for again when its row is"
    );
}

#[test]
fn a_removal_waits_for_a_page_already_on_its_way() {
    let mut window: ListWindow<Fixture> = ListWindow::new();
    window.reset(120);
    deliver_fresh(&mut window, 0, 120);
    assert!(window.note_pending(1));
    assert!(
        !window.remove_at(3),
        "page 1 was asked for at the old offsets"
    );
    assert_eq!(window.total(), 120, "and nothing changed");
    assert!(
        !window.remove_at(100),
        "a row not held cannot be removed in place"
    );
}

#[test]
fn a_page_asked_for_by_an_event_stays_pending_until_it_lands() {
    let mut window: ListWindow<Fixture> = ListWindow::new();
    window.reset(120);
    assert!(!window.is_pending(1));
    assert!(window.note_pending(1), "the first ask is new");
    assert!(!window.note_pending(1), "the second ask is not");
    assert!(window.is_pending(1));
    deliver_fresh(&mut window, 1, 120);
    assert!(!window.is_pending(1), "delivery settles it");
}

#[test]
fn a_hundred_thousand_row_scope_never_materialises_more_than_the_resident_bound() {
    const HUGE: u32 = 100_000;
    let mut window: ListWindow<Fixture> = ListWindow::new();
    window.reset(HUGE);

    let ceiling = CACHE_PAGES * PAGE_SIZE as usize;
    let mut position = 0;
    while position < HUGE {
        for offset in 0..15u32 {
            let at = (position + offset).min(HUGE - 1);
            if let Some(Lookup::Missing { request }) = window.row_at(at) {
                for page in request {
                    deliver_fresh(&mut window, page, HUGE);
                }
            }
        }
        assert!(
            window.resident_rows() <= ceiling,
            "at position {position} the window held {} rows, over the {ceiling} \
             the cache is allowed",
            window.resident_rows()
        );
        position += 500;
    }
    assert_eq!(window.total(), HUGE);
}

#[test]
fn a_jump_to_row_ninety_thousand_asks_for_its_page_once_each() {
    const HUGE: u32 = 100_000;
    let mut window: ListWindow<Fixture> = ListWindow::new();
    window.reset(HUGE);

    let Some(Lookup::Missing { request }) = window.row_at(90_000) else {
        panic!("row 90,000 cannot be resident in a fresh window");
    };
    assert_eq!(
        request,
        vec![1800, 1799, 1801],
        "the page itself, then the one before it, then the one after — \
         each named once"
    );

    deliver_fresh(&mut window, 1800, HUGE);
    deliver_fresh(&mut window, 1799, HUGE);
    deliver_fresh(&mut window, 1801, HUGE);
    assert!(matches!(window.row_at(90_000), Some(Lookup::Resident(_))));
}

#[test]
fn a_short_middle_page_is_re_requested_rather_than_stuck_as_a_placeholder() {
    let mut window: ListWindow<Fixture> = ListWindow::new();
    window.reset(500);
    window.deliver(window.generation(), 2, (100..120).map(row).collect());
    window.set_total(200);

    match window.row_at(130) {
        Some(Lookup::Missing { request }) => {
            assert!(
                request.contains(&2),
                "expected the short page 2 to be re-requested, got {request:?}"
            );
        }
        other => panic!("expected row 130 to be Missing with page 2 requested, got {other:?}"),
    }
}

#[test]
fn a_page_whose_fetch_failed_is_asked_for_again() {
    let mut window: ListWindow<Fixture> = ListWindow::new();
    window.reset(500);

    let Some(Lookup::Missing { request }) = window.row_at(130) else {
        panic!("a page nobody has delivered must be Missing");
    };
    assert!(request.contains(&2), "expected page 2 to be asked for");

    match window.row_at(130) {
        Some(Lookup::Missing { request }) => assert!(
            !request.contains(&2),
            "page 2 is already on its way; asking twice is the waste this \
             rule prevents"
        ),
        other => panic!("expected Missing, got {other:?}"),
    }

    window.abandon(window.generation(), 2);

    match window.row_at(130) {
        Some(Lookup::Missing { request }) => assert!(
            request.contains(&2),
            "a failed page was never asked for again, so its rows are \
             skeletons for the rest of the session: {request:?}"
        ),
        other => panic!("expected Missing with page 2 re-requested, got {other:?}"),
    }
}

#[test]
fn an_abandonment_from_a_stale_generation_is_ignored() {
    let mut window: ListWindow<Fixture> = ListWindow::new();
    window.reset(500);
    let stale = window.generation();
    let Some(Lookup::Missing { .. }) = window.row_at(130) else {
        panic!("expected page 2 to be asked for");
    };
    window.reset(500);

    window.abandon(stale, 2);

    match window.row_at(130) {
        Some(Lookup::Missing { request }) => assert!(request.contains(&2)),
        other => panic!("expected Missing, got {other:?}"),
    }
}

#[test]
fn a_page_is_never_asked_for_twice_while_outstanding() {
    let mut window: ListWindow<Fixture> = ListWindow::new();
    window.reset(100_000);

    let Some(Lookup::Missing { request }) = window.row_at(0) else {
        panic!("position 0 cannot be resident yet");
    };
    assert_eq!(request, vec![0, 1]);

    for position in 0..PAGE_SIZE {
        window.row_at(position);
    }
    assert!(matches!(
        window.row_at(PAGE_SIZE - 1),
        Some(Lookup::Missing { request }) if request.is_empty()
    ));
}

#[test]
fn a_superseded_generations_reply_is_dropped() {
    let mut window: ListWindow<Fixture> = ListWindow::new();
    let old_generation = window.reset(1_000);
    window.row_at(0);

    window.reset(500);

    let delivered = window.deliver(old_generation, 0, page_rows(0, 1_000));
    assert!(delivered.stale, "an old generation's reply must be dropped");
    assert_eq!(
        window.resident_rows(),
        0,
        "the stale reply must not have written anything"
    );
}

#[test]
fn insert_at_top_keeps_the_cursor_on_its_row() {
    let mut window: ListWindow<Fixture> = ListWindow::new();
    window.reset(1_000);
    window.row_at(0);
    deliver_fresh(&mut window, 0, 1_000);
    let cursor_id = window.peek(7).expect("resident before the insert");
    assert_eq!(cursor_id, MessageId::new(8));

    assert!(window.inserted_at_top(3));
    assert_eq!(window.total(), 1_003);
    assert_eq!(
        window.resident_rows(),
        0,
        "every cached page is now misaligned against its positions"
    );

    window.row_at(10);
    let shifted: Vec<Fixture> = (0..PAGE_SIZE)
        .map(|position| {
            let id = if position < 3 {
                100_000 + position as i64
            } else {
                position as i64 - 3 + 1
            };
            Fixture {
                id: MessageId::new(id),
                reconciled: false,
            }
        })
        .collect();
    window.deliver(window.generation(), 0, shifted);

    assert_eq!(
        window.peek(10),
        Some(cursor_id),
        "the same message now sits three rows further down"
    );
}

#[test]
fn inserting_nothing_changes_nothing() {
    let mut window: ListWindow<Fixture> = ListWindow::new();
    window.reset(1_000);
    window.row_at(0);
    deliver_fresh(&mut window, 0, 1_000);
    let resident = window.resident_rows();

    assert!(!window.inserted_at_top(0));
    assert_eq!(window.resident_rows(), resident);
}

#[test]
fn the_pages_that_go_are_the_ones_nobody_is_looking_at() {
    let mut window: ListWindow<Fixture> = ListWindow::new();
    window.reset(100_000);

    for page in 0..(CACHE_PAGES as u32 * 3) {
        window.row_at(page * PAGE_SIZE);
        deliver_fresh(&mut window, page, 100_000);
    }

    let resident = window.resident_pages();
    assert!(resident.len() <= CACHE_PAGES);
    assert!(
        !resident.contains(&0),
        "the first page is the least recently used and should be long gone"
    );
    assert!(resident.contains(&(CACHE_PAGES as u32 * 3 - 1)));
}

#[test]
fn a_redelivered_page_is_reconciled_not_replaced() {
    let mut window: ListWindow<Fixture> = ListWindow::new();
    window.reset(100_000);
    window.row_at(0);
    deliver_fresh(&mut window, 0, 100_000);
    assert_eq!(window.peek(3), Some(MessageId::new(4)), "resident already");

    deliver_fresh(&mut window, 0, 100_000);
    let Some(Lookup::Resident(row)) = window.row_at(3) else {
        panic!("row 3 should be resident");
    };
    assert!(
        row.reconciled,
        "a redelivered row goes through reconcile, not a fresh insert"
    );
}

#[test]
fn a_flag_change_touches_one_row_and_reports_its_position() {
    let mut window: ListWindow<Fixture> = ListWindow::new();
    window.reset(100_000);
    window.row_at(0);
    deliver_fresh(&mut window, 0, 100_000);

    let position = window.update(row(7));
    assert_eq!(position, Some(7));
    let Some(Lookup::Resident(updated)) = window.row_at(7) else {
        panic!("row 7 should still be resident");
    };
    assert!(updated.reconciled);
}

#[test]
fn a_message_off_screen_needs_no_update() {
    let mut window: ListWindow<Fixture> = ListWindow::new();
    window.reset(100_000);
    window.row_at(0);
    deliver_fresh(&mut window, 0, 100_000);

    assert_eq!(
        window.update(row(90_000)),
        None,
        "its page is not resident, so there is nothing to update"
    );
}

#[test]
fn a_shrinking_scope_drops_the_rows_that_went() {
    let mut window: ListWindow<Fixture> = ListWindow::new();
    window.reset(500);
    for page in 0..10 {
        window.row_at(page * PAGE_SIZE);
        deliver_fresh(&mut window, page, 500);
    }
    assert!(window.resident_pages().contains(&7));

    let change = window.set_total(120);
    assert_eq!(change, Some((120, 380, 0)));
    assert!(window.resident_pages().iter().all(|page| *page < 3));
    assert_eq!(window.peek(120), None, "nothing past the new end");
}

#[test]
fn a_growing_scope_reports_only_the_new_rows() {
    let mut window: ListWindow<Fixture> = ListWindow::new();
    window.reset(120);
    assert_eq!(window.set_total(500), Some((120, 0, 380)));
}

#[test]
fn an_unchanged_total_reports_nothing() {
    let mut window: ListWindow<Fixture> = ListWindow::new();
    window.reset(120);
    assert_eq!(window.set_total(120), None);
}

#[test]
fn resetting_replaces_the_scope_and_bumps_the_generation() {
    let mut window: ListWindow<Fixture> = ListWindow::new();
    let first = window.reset(1_000);
    window.row_at(0);
    deliver_fresh(&mut window, 0, 1_000);
    assert!(window.resident_rows() > 0);

    let second = window.reset(40);
    assert_eq!(second, first + 1);
    assert_eq!(window.total(), 40);
    assert_eq!(window.resident_rows(), 0);
}

#[test]
fn invalidating_keeps_the_scope_and_the_generation() {
    let mut window: ListWindow<Fixture> = ListWindow::new();
    let generation = window.reset(500);
    window.row_at(0);
    deliver_fresh(&mut window, 0, 500);

    let total = window.invalidate();
    assert_eq!(total, 500, "the scope is the same length");
    assert_eq!(window.resident_rows(), 0);
    assert_eq!(
        window.generation(),
        generation,
        "a reorder is still the same question, so a request already in \
         flight from before it must not be treated as stale"
    );
}

#[test]
fn there_is_nothing_past_the_end() {
    let mut window: ListWindow<Fixture> = ListWindow::new();
    window.reset(120);
    assert!(window.row_at(120).is_none());
    assert!(window.row_at(u32::MAX).is_none());

    let Some(Lookup::Missing { request }) = window.row_at(119) else {
        panic!("row 119 should need a fetch");
    };
    assert_eq!(request, vec![2, 1], "no page 3, which starts past 120");
}

#[test]
fn the_window_can_say_which_page_holds_a_message() {
    let mut window: ListWindow<Fixture> = ListWindow::new();
    window.reset(100_000);
    window.row_at(0);
    window.row_at(PAGE_SIZE * 4);
    deliver_fresh(&mut window, 0, 100_000);
    deliver_fresh(&mut window, 4, 100_000);

    assert_eq!(window.page_of(MessageId::new(1)), Some(0));
    assert_eq!(
        window.page_of(MessageId::new(PAGE_SIZE as i64 * 4 + 1)),
        Some(4)
    );
    assert_eq!(
        window.page_of(MessageId::new(PAGE_SIZE as i64 * 2 + 1)),
        None,
        "a message whose page is not resident has no page to refetch"
    );
}

#[test]
fn pages_holding_dedupes_and_sorts() {
    let mut window: ListWindow<Fixture> = ListWindow::new();
    window.reset(100_000);
    window.row_at(0);
    window.row_at(PAGE_SIZE * 4);
    deliver_fresh(&mut window, 0, 100_000);
    deliver_fresh(&mut window, 4, 100_000);

    let ids = [
        MessageId::new(3),
        MessageId::new(PAGE_SIZE as i64 * 4 + 1),
        MessageId::new(1),
        MessageId::new(999_999),
    ];
    assert_eq!(window.pages_holding(&ids), vec![0, 4]);
}

#[test]
fn the_window_can_say_where_a_resident_message_sits() {
    let mut window: ListWindow<Fixture> = ListWindow::new();
    window.reset(100_000);
    window.row_at(0);
    deliver_fresh(&mut window, 0, 100_000);

    assert_eq!(window.position_of(MessageId::new(1)), Some(0));
    assert_eq!(
        window.position_of(MessageId::new(7)),
        Some(6),
        "position, not just page — the row's own offset within it"
    );
    assert_eq!(
        window.position_of(MessageId::new(PAGE_SIZE as i64 * 2 + 1)),
        None
    );
}

#[test]
fn delivering_evicts_when_the_cache_overflows() {
    let mut window: ListWindow<Fixture> = ListWindow::new();
    window.reset(100_000);
    for page in 0..CACHE_PAGES as u32 {
        window.row_at(page * PAGE_SIZE);
        let delivered = deliver_fresh(&mut window, page, 100_000);
        assert!(delivered.evicted.is_empty(), "cache not yet full");
    }
    window.row_at(CACHE_PAGES as u32 * PAGE_SIZE);
    let delivered = deliver_fresh(&mut window, CACHE_PAGES as u32, 100_000);
    assert_eq!(
        delivered.evicted,
        vec![0],
        "the least recently used page goes"
    );
}

#[test]
fn a_default_row_type_replaces_rather_than_reconciles() {
    #[derive(Debug, Clone, PartialEq, Eq)]
    struct Plain(MessageId);
    impl ListRow for Plain {
        fn id(&self) -> Option<MessageId> {
            Some(self.0)
        }
    }

    let mut window: ListWindow<Plain> = ListWindow::new();
    window.reset(10);
    window.row_at(0);
    window.deliver(window.generation(), 0, vec![Plain(MessageId::new(1))]);
    let updated = window.update(Plain(MessageId::new(1)));
    assert_eq!(updated, Some(0));
}

#[derive(Debug, Clone, PartialEq, Eq)]
struct Row {
    id: MessageId,
    thread: Option<ThreadId>,
}

impl ListRow for Row {
    fn id(&self) -> Option<MessageId> {
        Some(self.id)
    }

    fn thread(&self) -> Option<ThreadId> {
        self.thread
    }
}

fn window_holding(rows: Vec<Row>) -> ListWindow<Row> {
    let mut window: ListWindow<Row> = ListWindow::new();
    window.reset(rows.len() as u32);
    window.row_at(0);
    let generation = window.generation();
    window.deliver(generation, 0, rows);
    window
}

#[test]
fn a_resident_conversation_row_reports_its_thread() {
    let window = window_holding(vec![Row {
        id: MessageId::new(7),
        thread: Some(ThreadId::new(3)),
    }]);

    assert_eq!(
        window.row_kind(MessageId::new(7)),
        RowKind::Thread(ThreadId::new(3)),
    );
}

#[test]
fn a_resident_message_row_reports_a_message() {
    let window = window_holding(vec![Row {
        id: MessageId::new(7),
        thread: None,
    }]);

    assert_eq!(window.row_kind(MessageId::new(7)), RowKind::Message);
}

#[test]
fn a_row_the_window_does_not_hold_is_missing_rather_than_a_message() {
    let window = window_holding(vec![Row {
        id: MessageId::new(7),
        thread: Some(ThreadId::new(3)),
    }]);

    assert_eq!(window.row_kind(MessageId::new(99)), RowKind::Missing);
}

#[test]
fn an_empty_window_holds_no_rows_rather_than_fetching_any() {
    let window: ListWindow<Row> = ListWindow::new();
    assert_eq!(window.row_kind(MessageId::new(7)), RowKind::Missing);
    assert!(window.row_of(MessageId::new(7)).is_none());
}

#[test]
fn a_message_past_the_new_end_is_nowhere() {
    let mut window: ListWindow<Fixture> = ListWindow::new();
    window.reset(500);
    deliver_fresh(&mut window, 2, 500);
    assert_eq!(window.position_of(MessageId::new(141)), Some(140));

    window.set_total(120);
    assert_eq!(window.position_of(MessageId::new(141)), None);
    assert_eq!(window.position_of(MessageId::new(120)), Some(119));
    assert_eq!(window.resident_rows(), 20, "the page is cut where the scope ends");
    window.set_total(500);
    assert_eq!(window.peek(140), None, "what was forgotten does not come back");
}

#[test]
fn a_short_page_is_a_gap_to_a_removal() {
    let mut window: ListWindow<Fixture> = ListWindow::new();
    window.reset(200);
    window.deliver(window.generation(), 0, (0..20).map(row).collect());
    deliver_fresh(&mut window, 1, 200);

    assert!(window.remove_at(5));
    assert_eq!(window.peek(4), Some(MessageId::new(5)));
    assert_eq!(window.peek(5), Some(MessageId::new(7)));
    assert_eq!(window.peek(18), Some(MessageId::new(20)));
    assert_eq!(window.peek(19), None, "the row at 50 is not the one after row 18");
    assert_eq!(window.resident_pages(), [0], "the page past the gap is one row out");
}

#[test]
fn a_splice_comes_down_to_the_bound() {
    let mut window: ListWindow<Fixture> = ListWindow::new();
    window.reset(1000);
    for page in 0..CACHE_PAGES as u32 {
        deliver_fresh(&mut window, page, 1000);
    }
    assert_eq!(window.resident_rows(), CACHE_PAGES * PAGE_SIZE as usize);

    assert!(window.splice(0, 0, vec![row(4_000)]));
    assert_eq!(window.total(), 1001);
    assert_eq!(window.resident_pages().len(), CACHE_PAGES);
    assert_eq!(window.resident_rows(), CACHE_PAGES * PAGE_SIZE as usize);
    assert_eq!(window.peek(0), Some(MessageId::new(4_001)), "the row put in is there");
    assert_eq!(window.peek(1), Some(MessageId::new(1)));
    assert_eq!(window.peek(399), Some(MessageId::new(399)));
    assert_eq!(window.peek(400), None, "the row that fell off the end went first");
}

#[test]
fn a_splice_gives_up_the_least_recently_used_among_equals() {
    let mut window: ListWindow<Fixture> = ListWindow::new();
    window.reset(1000);
    for page in [3, 0, 1, 2, 4, 5, 6, 7] {
        deliver_fresh(&mut window, page, 1000);
    }
    let many: Vec<Fixture> = (2_000..2_120).map(row).collect();
    assert!(window.splice(400, 0, many));
    // No page lies past the new rows, so the three read longest ago go.
    assert_eq!(window.resident_pages(), [2, 4, 5, 6, 7, 8, 9, 10]);
    assert_eq!(window.peek(400), Some(MessageId::new(2_001)));
    assert_eq!(window.peek(519), Some(MessageId::new(2_120)));
    assert_eq!(window.peek(0), None);
}

#[test]
fn a_splice_leaves_the_pages_before_its_run_alone() {
    let mut window: ListWindow<Fixture> = ListWindow::new();
    window.reset(1000);
    for page in [0, 4, 5] {
        deliver_fresh(&mut window, page, 1000);
    }
    assert!(window.splice(210, 1, vec![row(4_000), row(4_001)]));
    assert_eq!(window.peek(0), Some(MessageId::new(1)));
    assert_eq!(window.peek(49), Some(MessageId::new(50)));
    assert_eq!(window.peek(209), Some(MessageId::new(210)));
    assert_eq!(window.peek(211), Some(MessageId::new(4_002)));
    assert_eq!(window.peek(212), Some(MessageId::new(212)));
}
