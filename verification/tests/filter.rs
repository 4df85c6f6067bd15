use fastcull_core::catalog::PickState;
use fastcull_core::catalog::PickState::{Picked, Rejected, Unmarked};
use fastcull_core::filter::{
    counts, cursor_after_filter_change, cursor_after_mark, cursor_after_recompute,
    cursor_after_removal, view, view_true_sort, PickFilter, SortKey, ViewQuery,
};

fn fixture() -> (Vec<PickState>, Vec<String>, Vec<Option<String>>) {
    let picks = vec![Picked, Rejected, Unmarked, Picked, Unmarked, Rejected];
    let names: Vec<String> = ["f.ARW", "e.ARW", "d.ARW", "c.ARW", "b.ARW", "a.ARW"]
        .map(String::from)
        .to_vec();
    let keys: Vec<Option<String>> = vec![
        Some("2026:07:22 10:00:01.000".into()),
        Some("2026:07:22 10:00:02.000".into()),
        None,
        Some("2026:07:22 09:59:59.000".into()),
        Some("2026:07:22 10:00:03.000".into()),
        None,
    ];
    (picks, names, keys)
}

#[test]
fn counts_are_live_totals() {
    let (picks, ..) = fixture();
    let c = counts(&picks);
    assert_eq!((c.all, c.picked, c.rejected, c.unmarked), (6, 2, 2, 2));
}

#[test]
fn every_filter_sort_combination() {
    let (picks, names, keys) = fixture();
    for (filter, expected_ids) in [
        (PickFilter::All, vec![0, 1, 2, 3, 4, 5]),
        (PickFilter::Picked, vec![0, 3]),
        (PickFilter::Rejected, vec![1, 5]),
        (PickFilter::Unmarked, vec![2, 4]),
    ] {
        for sort in [SortKey::CaptureTime, SortKey::Filename] {
            for ascending in [true, false] {
                let q = ViewQuery {
                    filter,
                    sort,
                    ascending,
                };
                let v = view(&picks, &names, &keys, &q, true);
                let mut sorted_ids = v.clone();
                sorted_ids.sort_unstable();
                assert_eq!(sorted_ids, expected_ids, "{q:?} membership");
                let mut rev = view(
                    &picks,
                    &names,
                    &keys,
                    &ViewQuery {
                        ascending: !ascending,
                        ..q
                    },
                    true,
                );
                rev.reverse();
                assert_eq!(v, rev, "{q:?} descending is exact reverse");
            }
        }
    }
    let q = ViewQuery::default();
    assert_eq!(
        view(&picks, &names, &keys, &q, true),
        vec![3, 0, 1, 4, 5, 2]
    );
    let q = ViewQuery {
        sort: SortKey::Filename,
        ..q
    };
    assert_eq!(
        view(&picks, &names, &keys, &q, true),
        vec![5, 4, 3, 2, 1, 0]
    );
}

#[test]
fn provisional_order_is_stable_while_metadata_streams() {
    let (picks, names, keys) = fixture();
    let q = ViewQuery::default();
    let unknown: Vec<Option<String>> = vec![None; keys.len()];

    let baseline = view(&picks, &names, &unknown, &q, false);
    let by_name = view(
        &picks,
        &names,
        &unknown,
        &ViewQuery {
            sort: SortKey::Filename,
            ..q
        },
        true,
    );
    assert_eq!(baseline, by_name, "provisional order must be by filename");

    let mut streaming = unknown.clone();
    for (i, key) in keys.iter().enumerate() {
        streaming[i] = key.clone();
        assert_eq!(
            view(&picks, &names, &streaming, &q, false),
            baseline,
            "the view moved while metadata was still streaming (after key {i})"
        );
    }

    let settled = view(&picks, &names, &keys, &q, true);
    assert_eq!(settled, vec![3, 0, 1, 4, 5, 2], "capture order at the end");
    assert_ne!(
        settled, baseline,
        "fixture must actually reorder, or the stability check above is vacuous"
    );
}

#[test]
fn engine_events_stop_moving_an_untouched_cursor_once_loaded() {
    let loading = vec![0, 1, 2, 3, 4, 5];
    let settled = vec![3, 0, 1, 4, 5, 2];
    let cursor = Some(0);
    let after = |touched, complete, user_query| {
        cursor_after_recompute(&loading, cursor, &settled, touched, complete, user_query)
    };

    assert_eq!(
        after(false, true, false),
        Some(0),
        "an engine event after loading must not move the photograph"
    );
    assert_eq!(after(true, true, false), Some(0));

    assert_eq!(after(false, false, false), Some(3));

    assert_eq!(after(false, true, true), Some(3), "filter/sort chip");
    assert_eq!(after(false, false, true), Some(3));
    assert_eq!(after(true, true, true), Some(0));

    for touched in [true, false] {
        for complete in [true, false] {
            for user_query in [true, false] {
                assert_eq!(
                    cursor_after_recompute(
                        &loading,
                        cursor,
                        &[],
                        touched,
                        complete,
                        user_query
                    ),
                    None
                );
            }
        }
    }
    let without = vec![3, 1, 4, 5, 2];
    assert_eq!(
        cursor_after_recompute(&loading, cursor, &without, false, true, false),
        Some(1),
        "nearest survivor, not a dangling id"
    );
}

#[test]
fn view_true_sort_never_uses_the_provisional_order() {
    let (picks, names, keys) = fixture();
    let q = ViewQuery::default();
    assert_eq!(
        view_true_sort(&picks, &names, &keys, &q),
        view(&picks, &names, &keys, &q, true),
        "must equal the settled order"
    );
    assert_ne!(
        view_true_sort(&picks, &names, &keys, &q),
        view(&picks, &names, &keys, &q, false),
        "must DIFFER from the provisional order, or this proves nothing"
    );
}

#[test]
fn provisional_order_still_respects_the_filter_and_direction() {
    let (picks, names, keys) = fixture();
    for filter in [
        PickFilter::All,
        PickFilter::Picked,
        PickFilter::Rejected,
        PickFilter::Unmarked,
    ] {
        let q = ViewQuery {
            filter,
            ..Default::default()
        };
        let loading = view(&picks, &names, &keys, &q, false);
        let mut members = loading.clone();
        members.sort_unstable();
        let mut expected = view(&picks, &names, &keys, &q, true);
        expected.sort_unstable();
        assert_eq!(members, expected, "{filter:?} membership must not change");
        let desc = view(
            &picks,
            &names,
            &keys,
            &ViewQuery {
                ascending: false,
                ..q
            },
            false,
        );
        let mut rev = loading.clone();
        rev.reverse();
        assert_eq!(desc, rev, "{filter:?} descending while loading");
    }
}

#[test]
fn inbox_zero_loop_cursor_flow() {
    let (mut picks, names, keys) = fixture();
    let q = ViewQuery {
        filter: PickFilter::Unmarked,
        ..Default::default()
    };
    let mut v = view(&picks, &names, &keys, &q, true);
    assert_eq!(v, vec![4, 2]);
    let mut cursor = Some(v[0]);

    picks[4] = Picked;
    let old_pos = v.iter().position(|i| Some(*i) == cursor).unwrap();
    v = view(&picks, &names, &keys, &q, true);
    cursor = cursor_after_removal(&v, old_pos);
    assert_eq!(v, vec![2]);
    assert_eq!(cursor, Some(2));

    picks[2] = Rejected;
    let old_pos = v.iter().position(|i| Some(*i) == cursor).unwrap();
    v = view(&picks, &names, &keys, &q, true);
    cursor = cursor_after_removal(&v, old_pos);
    assert!(v.is_empty());
    assert_eq!(cursor, None);
}

#[test]
fn removal_mid_view_slides_to_next_then_previous_at_end() {
    assert_eq!(cursor_after_removal(&[10, 30], 1), Some(30));
    assert_eq!(cursor_after_removal(&[10, 20], 2), Some(20));
    assert_eq!(cursor_after_removal(&[], 0), None);
}

#[test]
fn mark_advances_exactly_one_image() {
    assert_eq!(cursor_after_mark(10, 0, &[20, 30], true), Some(20));
    assert_eq!(cursor_after_mark(10, 0, &[10, 20, 30], true), Some(20));
    assert_eq!(cursor_after_mark(30, 2, &[10, 20, 30], true), Some(30));
    assert_eq!(cursor_after_mark(10, 0, &[10, 20, 30], false), Some(10));
    assert_eq!(cursor_after_mark(30, 2, &[10, 20], true), Some(20));
    assert_eq!(cursor_after_mark(10, 0, &[], true), None);
}

#[test]
fn filter_change_keeps_or_finds_nearest_cursor() {
    let old = vec![1, 2, 3, 4, 5];
    assert_eq!(cursor_after_filter_change(&old, Some(3), &[3, 5]), Some(3));
    assert_eq!(
        cursor_after_filter_change(&old, Some(3), &[1, 5]),
        Some(1),
        "distance 2 below beats distance 2 above by scan order"
    );
    assert_eq!(cursor_after_filter_change(&old, Some(9), &[7, 8]), Some(7));
    assert_eq!(cursor_after_filter_change(&old, None, &[7]), Some(7));
    assert_eq!(cursor_after_filter_change(&old, Some(1), &[]), None);
}

#[test]
fn each_filter_takes_its_own() {
    for pick in [Picked, Rejected, Unmarked] {
        assert!(PickFilter::All.matches(pick));
        assert_eq!(PickFilter::Picked.matches(pick), pick == Picked);
        assert_eq!(PickFilter::Rejected.matches(pick), pick == Rejected);
        assert_eq!(PickFilter::Unmarked.matches(pick), pick == Unmarked);
    }
}
