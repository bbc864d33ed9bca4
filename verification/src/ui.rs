//! What the board's screen shows: cell labels, the error button's caption and
//! the shade of each cell.
use vstd::prelude::*;

verus! {

/// The character of decimal digit `d`.
pub open spec fn digit_char(d: int) -> char {
    (48 + d) as char
}

/// The decimal digits of `v`, without leading zeros.
pub open spec fn decimal(v: u8) -> Seq<char> {
    let n = v as int;
    if n < 10 {
        seq![digit_char(n)]
    } else if n < 100 {
        seq![digit_char(n / 10), digit_char(n % 10)]
    } else {
        seq![digit_char(n / 100), digit_char((n / 10) % 10), digit_char(n % 10)]
    }
}

/// `format!("{v}")`: the `Display` of `u8` writes the number in decimal.
#[verifier::external_body]
fn decimal_text(v: u8) -> (s: String)
    ensures
        s@ == decimal(v),
{
    format!("{v}")
}

/// The text shown in a cell holding `v`: nothing when it is empty, else its digit.
pub fn value_label(v: u8) -> (s: String)
    ensures
        v == 0 ==> s@ == Seq::<char>::empty(),
        v > 0 ==> s@ == decimal(v),
{
    if v > 0 {
        decimal_text(v)
    } else {
        String::new()
    }
}

/// The caption of the button that shows or hides the errors.
pub fn check_button_label(show_errors: bool) -> (s: &'static str)
    ensures
        show_errors ==> s@ == "Fehler verbergen"@,
        !show_errors ==> s@ == "Fehler anzeigen"@,
{
    if show_errors {
        "Fehler verbergen"
    } else {
        "Fehler anzeigen"
    }
}

/// How the pointer is interacting with a cell's button.
#[derive(Clone, Copy, Debug, PartialEq, Eq, Structural)]
pub enum FieldInteraction {
    Pressed,
    Hovered,
    Idle,
}

/// The background a cell is drawn with.
#[derive(Clone, Copy, Debug, PartialEq, Eq, Structural)]
pub enum FieldShade {
    Pressed,
    Fixed,
    Hover,
    Error,
    Plain,
}

/// The background of a cell: pressed cells show as pressed; fixed cells keep
/// their own shade otherwise; a hovered free cell is highlighted; an idle
/// free cell shows as an error when it is one and errors are shown.
pub fn field_shade(interaction: FieldInteraction, fixed: bool, error: bool, show_errors: bool) -> (shade: FieldShade)
    ensures
        shade == match interaction {
            FieldInteraction::Pressed => FieldShade::Pressed,
            FieldInteraction::Hovered => if fixed {
                FieldShade::Fixed
            } else {
                FieldShade::Hover
            },
            FieldInteraction::Idle => if fixed {
                FieldShade::Fixed
            } else if error && show_errors {
                FieldShade::Error
            } else {
                FieldShade::Plain
            },
        },
{
    match interaction {
        FieldInteraction::Pressed => FieldShade::Pressed,
        FieldInteraction::Hovered => {
            if fixed {
                FieldShade::Fixed
            } else {
                FieldShade::Hover
            }
        },
        FieldInteraction::Idle => {
            if fixed {
                FieldShade::Fixed
            } else {
                if error && show_errors {
                    FieldShade::Error
                } else {
                    FieldShade::Plain
                }
            }
        },
    }
}

} // verus!
