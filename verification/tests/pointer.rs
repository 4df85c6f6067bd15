use fastcull_core::pointer::{step, Deed, Facts, Gesture, Level};

const FACTS: Facts = Facts {
    climbs: true,
    lands_on_fit: true,
    inside: true,
    zoomable: true,
    at_top: false,
    top_known: true,
};

const GRID: Level = Level::Grid { columns: 8 };
const ZOOMED: Level = Level::Zoomed { resolved: true };

fn wheel(up: bool, ctrl: bool) -> Gesture {
    Gesture::Wheel { up, ctrl }
}

#[test]
fn the_transition_table_pair_by_pair() {
    // Grid row.
    for up in [true, false] {
        assert_eq!(
            step(GRID, wheel(up, false), FACTS),
            (GRID, Deed::GridScroll { up })
        );
        assert!(matches!(
            step(GRID, wheel(up, true), FACTS),
            (GRID, Deed::Reserved(_))
        ));
    }
    assert_eq!(step(GRID, Gesture::Click, FACTS), (GRID, Deed::GridClick));
    assert_eq!(
        step(GRID, Gesture::DoubleClick, FACTS),
        (Level::Fit, Deed::EnterLoupe)
    );
    assert_eq!(step(GRID, Gesture::Drag, FACTS), (GRID, Deed::GridNativeDrag));
    // Fit row.
    assert_eq!(step(Level::Fit, wheel(true, false), FACTS), (ZOOMED, Deed::Climb));
    assert_eq!(
        step(Level::Fit, wheel(false, false), FACTS),
        (Level::Fit, Deed::Nothing),
        "clamped, never exits"
    );
    assert_eq!(step(Level::Fit, Gesture::Click, FACTS), (Level::Fit, Deed::Nothing));
    assert_eq!(
        step(Level::Fit, Gesture::DoubleClick, FACTS),
        (ZOOMED, Deed::ToTop)
    );
    assert_eq!(step(Level::Fit, Gesture::Drag, FACTS), (Level::Fit, Deed::Nothing));
    // Zoomed row.
    assert_eq!(step(ZOOMED, wheel(true, false), FACTS), (ZOOMED, Deed::Climb));
    assert_eq!(
        step(ZOOMED, wheel(false, false), FACTS),
        (Level::Fit, Deed::BackToFit)
    );
    assert_eq!(step(ZOOMED, Gesture::Click, FACTS), (ZOOMED, Deed::Recenter));
    assert_eq!(step(ZOOMED, Gesture::DoubleClick, FACTS), (ZOOMED, Deed::ToTop));
    assert_eq!(step(ZOOMED, Gesture::Drag, FACTS), (ZOOMED, Deed::Pan));
    for level in [GRID, Level::Fit, ZOOMED] {
        let (after, deed) = step(level, Gesture::OtherButton, FACTS);
        assert_eq!(after, level);
        assert!(matches!(deed, Deed::Reserved(_)));
    }
}

#[test]
fn ctrl_is_ignored_in_the_loupe() {
    for level in [Level::Fit, ZOOMED] {
        for up in [true, false] {
            assert_eq!(
                step(level, wheel(up, true), FACTS),
                step(level, wheel(up, false), FACTS)
            );
        }
    }
}

#[test]
fn the_ladder_stops_where_the_geometry_says() {
    let capped = Facts {
        climbs: false,
        ..FACTS
    };
    assert_eq!(step(ZOOMED, wheel(true, false), capped), (ZOOMED, Deed::Nothing));
    assert_eq!(
        step(Level::Fit, wheel(true, false), capped),
        (Level::Fit, Deed::Nothing)
    );
    let high = Facts {
        lands_on_fit: false,
        ..FACTS
    };
    assert_eq!(step(ZOOMED, wheel(false, false), high), (ZOOMED, Deed::Descend));
}

#[test]
fn the_letterbox_is_dead() {
    let bar = Facts {
        inside: false,
        ..FACTS
    };
    for level in [Level::Fit, ZOOMED] {
        for gesture in [Gesture::Click, Gesture::DoubleClick] {
            assert_eq!(step(level, gesture, bar), (level, Deed::Nothing));
        }
    }
}

#[test]
fn a_small_file_stays_at_fit() {
    let small = Facts {
        climbs: false,
        zoomable: false,
        ..FACTS
    };
    for gesture in [wheel(true, false), Gesture::DoubleClick] {
        assert_eq!(step(Level::Fit, gesture, small), (Level::Fit, Deed::Nothing));
    }
}

#[test]
fn an_unresolved_top_is_inert_until_it_is_known() {
    let unknown = Facts {
        top_known: false,
        ..FACTS
    };
    let waiting = Level::Zoomed { resolved: false };
    assert_eq!(
        step(Level::Fit, Gesture::DoubleClick, unknown),
        (waiting, Deed::ToTop)
    );
    for gesture in [
        wheel(true, false),
        wheel(false, false),
        Gesture::Click,
        Gesture::DoubleClick,
        Gesture::Drag,
        Gesture::OtherButton,
    ] {
        assert_eq!(step(waiting, gesture, FACTS), (waiting, Deed::Nothing));
    }
}

#[test]
fn a_double_click_at_the_top_recenters() {
    let top = Facts {
        at_top: true,
        ..FACTS
    };
    assert_eq!(
        step(ZOOMED, Gesture::DoubleClick, top),
        (ZOOMED, Deed::Recenter)
    );
}
