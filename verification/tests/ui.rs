use sudoku::ui::{check_button_label, field_shade, value_label, FieldInteraction, FieldShade};

#[test]
fn test_value_label_empty_cell() {
    assert_eq!(value_label(0), "");
}

#[test]
fn test_value_label_digits() {
    assert_eq!(value_label(1), "1");
    assert_eq!(value_label(7), "7");
    assert_eq!(value_label(9), "9");
    assert_eq!(value_label(42), "42");
}

#[test]
fn test_check_button_label() {
    assert_eq!(check_button_label(true), "Fehler verbergen");
    assert_eq!(check_button_label(false), "Fehler anzeigen");
}

#[test]
fn test_field_shade_pressed() {
    assert_eq!(field_shade(FieldInteraction::Pressed, true, true, true), FieldShade::Pressed);
    assert_eq!(field_shade(FieldInteraction::Pressed, false, false, false), FieldShade::Pressed);
}

#[test]
fn test_field_shade_hovered() {
    assert_eq!(field_shade(FieldInteraction::Hovered, true, false, false), FieldShade::Fixed);
    assert_eq!(field_shade(FieldInteraction::Hovered, false, true, true), FieldShade::Hover);
}

#[test]
fn test_field_shade_idle() {
    assert_eq!(field_shade(FieldInteraction::Idle, true, true, true), FieldShade::Fixed);
    assert_eq!(field_shade(FieldInteraction::Idle, false, true, true), FieldShade::Error);
    assert_eq!(field_shade(FieldInteraction::Idle, false, true, false), FieldShade::Plain);
    assert_eq!(field_shade(FieldInteraction::Idle, false, false, true), FieldShade::Plain);
}
