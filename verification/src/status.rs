use vstd::prelude::*;

verus! {

/// The colour a status code is shown in.
#[derive(Clone, Copy, Debug, PartialEq, Eq)]
pub enum StatusColor {
    Green,
    Yellow,
    Red,
    BrightRed,
    White,
}

/// Success green, redirection yellow, client error red, server error bright
/// red, anything else white.
pub open spec fn color_of(status: u16) -> StatusColor {
    if 200 <= status <= 299 {
        StatusColor::Green
    } else if 300 <= status <= 399 {
        StatusColor::Yellow
    } else if 400 <= status <= 499 {
        StatusColor::Red
    } else if 500 <= status <= 599 {
        StatusColor::BrightRed
    } else {
        StatusColor::White
    }
}

/// The colour that the status code is shown in.
pub fn status_color(status: u16) -> (c: StatusColor)
    ensures
        c == color_of(status),
{
    match status {
        200..=299 => StatusColor::Green,
        300..=399 => StatusColor::Yellow,
        400..=499 => StatusColor::Red,
        500..=599 => StatusColor::BrightRed,
        _ => StatusColor::White,
    }
}

} // verus!
