//! Pointer state machine: what the mouse means at every zoom level, as one
//! explicit (state, input) → (state, action) table.
//!
//! The machine decides; coordinates are the application's business. It is
//! told what the geometry says ([`Facts`]) and names what has to be computed
//! ([`Deed`]).
use vstd::prelude::*;

verus! {

/// The zoom level IS the state. One column is not a grid state — it is the
/// loupe, i.e. [`Level::Fit`] or [`Level::Zoomed`].
#[derive(Clone, Copy, Debug, PartialEq, Eq, Structural)]
pub enum Level {
    /// Multi-image view.
    Grid { columns: u8 },
    /// Single image, the whole of it on screen.
    Fit,
    /// Single image above fit. `resolved` is false while 1:1 was asked for
    /// and its factor is not known yet.
    Zoomed { resolved: bool },
}

/// Normalized pointer input.
#[derive(Clone, Copy, Debug, PartialEq, Eq, Structural)]
pub enum Gesture {
    /// One notch-equivalent of wheel.
    Wheel { up: bool, ctrl: bool },
    Click,
    DoubleClick,
    /// Pointer moved while dragging.
    Drag,
    /// Right / middle / thumb buttons.
    OtherButton,
}

/// What the geometry says of a gesture.
#[derive(Clone, Copy, Debug, PartialEq, Eq, Structural)]
pub struct Facts {
    /// The next stop up the zoom ladder is above the current one.
    pub climbs: bool,
    /// The next stop down the ladder is fit.
    pub lands_on_fit: bool,
    /// The pointer is on the image, not in a letterbox bar.
    pub inside: bool,
    /// 1:1 is above fit (or not known yet).
    pub zoomable: bool,
    /// The view is at 1:1 already.
    pub at_top: bool,
    /// The factor of 1:1 is known.
    pub top_known: bool,
}

/// What has to be done. Reserved combinations are named — never a silent
/// fallthrough.
#[derive(Clone, Copy, Debug, PartialEq, Eq)]
pub enum Deed {
    /// Explicit nothing.
    Nothing,
    /// Reserved gesture: no-op today, the string names why.
    Reserved(&'static str),
    /// Grid: scroll the view one notch (cursor unmoved — browsing).
    GridScroll { up: bool },
    /// Grid: the native kinetic drag is kept.
    GridNativeDrag,
    /// Grid click: the cursor's.
    GridClick,
    /// Grid double-click: open that image in the loupe at fit.
    EnterLoupe,
    /// One stop up the ladder, the point under the pointer staying there.
    Climb,
    /// One stop down the ladder, the point under the pointer staying there.
    Descend,
    /// Back to fit, forgetting the pan spot: a stale pan is a trap.
    BackToFit,
    /// 1:1, centered on the point under the pointer.
    ToTop,
    /// Center on the point under the pointer; factor unchanged.
    Recenter,
    /// Pan with the pointer's motion, clamped to the image; factor
    /// unchanged.
    Pan,
}

/// What a [`Deed`] says.
pub ghost enum DeedView {
    Nothing,
    Reserved(Seq<char>),
    GridScroll { up: bool },
    GridNativeDrag,
    GridClick,
    EnterLoupe,
    Climb,
    Descend,
    BackToFit,
    ToTop,
    Recenter,
    Pan,
}

impl View for Deed {
    type V = DeedView;

    open spec fn view(&self) -> DeedView {
        match self {
            Deed::Nothing => DeedView::Nothing,
            Deed::Reserved(t) => DeedView::Reserved(t@),
            Deed::GridScroll { up } => DeedView::GridScroll { up: *up },
            Deed::GridNativeDrag => DeedView::GridNativeDrag,
            Deed::GridClick => DeedView::GridClick,
            Deed::EnterLoupe => DeedView::EnterLoupe,
            Deed::Climb => DeedView::Climb,
            Deed::Descend => DeedView::Descend,
            Deed::BackToFit => DeedView::BackToFit,
            Deed::ToTop => DeedView::ToTop,
            Deed::Recenter => DeedView::Recenter,
            Deed::Pan => DeedView::Pan,
        }
    }
}

/// The transition table.
pub open spec fn stepped(level: Level, gesture: Gesture, facts: Facts) -> (Level, DeedView) {
    let top = Level::Zoomed { resolved: facts.top_known };
    let up = Level::Zoomed { resolved: true };
    match (level, gesture) {
        // 1:1 was asked for and is not known yet: every gesture is inert.
        (Level::Zoomed { resolved: false }, _) => (level, DeedView::Nothing),
        (_, Gesture::OtherButton) => (
            level,
            DeedView::Reserved("right/middle/thumb buttons reserved — explicit no-op"@),
        ),
        // Grid: the wheel browses, clicks are the cursor's.
        (Level::Grid { .. }, Gesture::Wheel { ctrl: true, .. }) => (
            level,
            DeedView::Reserved("grid Ctrl+wheel zoom — still the M2 deferral"@),
        ),
        (Level::Grid { .. }, Gesture::Wheel { up, .. }) => (level, DeedView::GridScroll { up }),
        (Level::Grid { .. }, Gesture::Click) => (level, DeedView::GridClick),
        (Level::Grid { .. }, Gesture::DoubleClick) => (Level::Fit, DeedView::EnterLoupe),
        (Level::Grid { .. }, Gesture::Drag) => (level, DeedView::GridNativeDrag),
        // Fit: wheel-up enters the ladder, wheel-down clamps.
        (Level::Fit, Gesture::Wheel { up: true, .. }) => if facts.climbs {
            (up, DeedView::Climb)
        } else {
            (level, DeedView::Nothing)
        },
        (Level::Fit, Gesture::DoubleClick) => if facts.zoomable && facts.inside {
            (top, DeedView::ToTop)
        } else {
            (level, DeedView::Nothing)
        },
        (Level::Fit, _) => (level, DeedView::Nothing),
        // Zoomed: wheel walks the ladder, click re-centers, drag pans.
        (Level::Zoomed { .. }, Gesture::Wheel { up: true, .. }) => if facts.climbs {
            (up, DeedView::Climb)
        } else {
            (level, DeedView::Nothing)
        },
        (Level::Zoomed { .. }, Gesture::Wheel { .. }) => if facts.lands_on_fit {
            (Level::Fit, DeedView::BackToFit)
        } else {
            (up, DeedView::Descend)
        },
        (Level::Zoomed { .. }, Gesture::Click) => if facts.inside {
            (level, DeedView::Recenter)
        } else {
            (level, DeedView::Nothing)
        },
        (Level::Zoomed { .. }, Gesture::DoubleClick) => if !facts.inside {
            (level, DeedView::Nothing)
        } else if facts.at_top {
            (level, DeedView::Recenter)
        } else {
            (top, DeedView::ToTop)
        },
        (Level::Zoomed { .. }, Gesture::Drag) => (level, DeedView::Pan),
    }
}

/// The transition table. Every (state, input) pair is handled explicitly.
pub fn step(level: Level, gesture: Gesture, facts: Facts) -> (r: (Level, Deed))
    ensures
        (r.0, r.1@) == stepped(level, gesture, facts),
{
    let up_there = Level::Zoomed { resolved: true };
    let top = Level::Zoomed { resolved: facts.top_known };
    match level {
        Level::Grid { columns: _ } => match gesture {
            Gesture::Wheel { up, ctrl } => {
                if ctrl {
                    (
                        level,
                        Deed::Reserved("grid Ctrl+wheel zoom — still the M2 deferral"),
                    )
                } else {
                    (level, Deed::GridScroll { up })
                }
            },
            Gesture::Click => (level, Deed::GridClick),
            Gesture::DoubleClick => (Level::Fit, Deed::EnterLoupe),
            Gesture::Drag => (level, Deed::GridNativeDrag),
            Gesture::OtherButton => (
                level,
                Deed::Reserved("right/middle/thumb buttons reserved — explicit no-op"),
            ),
        },
        Level::Fit => match gesture {
            // The modifier is deliberately ignored in the loupe.
            Gesture::Wheel { up, ctrl: _ } => {
                if up && facts.climbs {
                    (up_there, Deed::Climb)
                } else {
                    (level, Deed::Nothing)
                }
            },
            Gesture::DoubleClick => {
                if facts.zoomable && facts.inside {
                    (top, Deed::ToTop)
                } else {
                    (level, Deed::Nothing)
                }
            },
            Gesture::Click => (level, Deed::Nothing),
            Gesture::Drag => (level, Deed::Nothing),
            Gesture::OtherButton => (
                level,
                Deed::Reserved("right/middle/thumb buttons reserved — explicit no-op"),
            ),
        },
        Level::Zoomed { resolved } => {
            if !resolved {
                return (level, Deed::Nothing);
            }
            match gesture {
                Gesture::Wheel { up, ctrl: _ } => {
                    if up {
                        if facts.climbs {
                            (up_there, Deed::Climb)
                        } else {
                            (level, Deed::Nothing)
                        }
                    } else if facts.lands_on_fit {
                        (Level::Fit, Deed::BackToFit)
                    } else {
                        (up_there, Deed::Descend)
                    }
                },
                Gesture::Click => {
                    if facts.inside {
                        (level, Deed::Recenter)
                    } else {
                        (level, Deed::Nothing)
                    }
                },
                Gesture::DoubleClick => {
                    if !facts.inside {
                        (level, Deed::Nothing)
                    } else if facts.at_top {
                        (level, Deed::Recenter)
                    } else {
                        (top, Deed::ToTop)
                    }
                },
                Gesture::Drag => (level, Deed::Pan),
                Gesture::OtherButton => (
                    level,
                    Deed::Reserved("right/middle/thumb buttons reserved — explicit no-op"),
                ),
            }
        },
    }
}

/// No gesture falls out of the loupe, and only a double-click enters it.
pub proof fn lemma_loupe_is_kept(level: Level, gesture: Gesture, facts: Facts)
    ensures
        stepped(level, gesture, facts).0 is Grid <==> level is Grid && gesture
            != Gesture::DoubleClick,
        level is Grid && gesture != Gesture::DoubleClick ==> stepped(level, gesture, facts).0
            == level,
{
}

/// A reserved gesture changes nothing, and neither does one that does
/// nothing.
pub proof fn lemma_reserved_changes_nothing(level: Level, gesture: Gesture, facts: Facts)
    requires
        stepped(level, gesture, facts).1 is Reserved || stepped(level, gesture, facts).1
            == DeedView::Nothing,
    ensures
        stepped(level, gesture, facts).0 == level,
{
}

/// The modifier is ignored in the loupe.
pub proof fn lemma_ctrl_is_ignored_in_the_loupe(level: Level, up: bool, facts: Facts)
    requires
        !(level is Grid),
    ensures
        stepped(level, Gesture::Wheel { up, ctrl: true }, facts) == stepped(
            level,
            Gesture::Wheel { up, ctrl: false },
            facts,
        ),
{
}

/// A 1:1 that is not resolved is inert.
pub proof fn lemma_unresolved_zoom_is_inert(gesture: Gesture, facts: Facts)
    ensures
        stepped(Level::Zoomed { resolved: false }, gesture, facts) == (
            Level::Zoomed { resolved: false },
            DeedView::Nothing,
        ),
{
}

/// Clicks in the letterbox bars of the loupe do nothing.
pub proof fn lemma_letterbox_is_dead(level: Level, facts: Facts)
    requires
        !(level is Grid),
        !facts.inside,
    ensures
        stepped(level, Gesture::Click, facts) == (level, DeedView::Nothing),
        stepped(level, Gesture::DoubleClick, facts) == (level, DeedView::Nothing),
{
}

/// When each thing is done, and where it leads. The wheel climbs where the
/// ladder goes up and descends above fit, back to fit where that is the next
/// stop; a double-click on the image opens it from the grid, goes to 1:1, and
/// at 1:1 only re-centers; a click on the image re-centers above fit; a drag
/// pans above fit.
pub proof fn lemma_when_each_thing_is_done(level: Level, gesture: Gesture, facts: Facts)
    ensures
        ({
            let (next, deed) = stepped(level, gesture, facts);
            let above = level == Level::Zoomed { resolved: true };
            let loupe = above || level == Level::Fit;
            let wheel_up = gesture is Wheel && gesture->up;
            let wheel_down = gesture is Wheel && !gesture->up;
            &&& deed == DeedView::Climb <==> loupe && wheel_up && facts.climbs
            &&& deed == DeedView::Climb ==> next == Level::Zoomed { resolved: true }
            &&& deed == DeedView::Descend <==> above && wheel_down && !facts.lands_on_fit
            &&& deed == DeedView::Descend ==> next == Level::Zoomed { resolved: true }
            &&& deed == DeedView::BackToFit <==> above && wheel_down && facts.lands_on_fit
            &&& deed == DeedView::BackToFit ==> next == Level::Fit
            &&& deed == DeedView::EnterLoupe <==> level is Grid && gesture == Gesture::DoubleClick
            &&& deed == DeedView::EnterLoupe ==> next == Level::Fit
            &&& deed == DeedView::ToTop <==> gesture == Gesture::DoubleClick && facts.inside && ((
            level == Level::Fit && facts.zoomable) || (above && !facts.at_top))
            &&& deed == DeedView::ToTop ==> next == Level::Zoomed { resolved: facts.top_known }
            &&& deed == DeedView::Recenter <==> above && facts.inside && (gesture == Gesture::Click
                || (gesture == Gesture::DoubleClick && facts.at_top))
            &&& deed == DeedView::Pan <==> above && gesture == Gesture::Drag
            &&& deed is GridScroll <==> level is Grid && gesture is Wheel && !gesture->ctrl
            &&& deed is GridScroll ==> deed->up == gesture->up
            &&& deed == DeedView::GridClick <==> level is Grid && gesture == Gesture::Click
            &&& deed == DeedView::GridNativeDrag <==> level is Grid && gesture == Gesture::Drag
            &&& deed is Reserved <==> (level is Grid && gesture is Wheel && gesture->ctrl) || (
            gesture == Gesture::OtherButton && level != Level::Zoomed { resolved: false })
            &&& deed == DeedView::Recenter || deed == DeedView::Pan || deed is GridScroll || deed
                == DeedView::GridClick || deed == DeedView::GridNativeDrag || deed is Reserved
                || deed == DeedView::Nothing ==> next == level
        }),
{
}

} // verus!
