use formatted_debug::string_stylizing::{format_string, StringBlinkSpeed, StringColor, StringStyle};

#[test]
fn test_string_formatting() {
    //order does matter:
    let result = format_string(
        &String::from("hello!"),
        &StringStyle::default()
            .set_text_color(&StringColor::Blue)
            .set_bold(false)
            .set_bold(true)
            .set_italicized(true)
            .set_strikethrough(true)
            .set_italicized(false)
            .set_blink_speed(&StringBlinkSpeed::Slow),
    );

    assert_eq!(result, "\x1b[1;9;5;34mhello!\u{1b}[0m")
}

#[test]
fn default_style_leaves_text_unchanged() {
    let result = format_string(&String::from("hello!"), &StringStyle::default());
    assert_eq!(result, "hello!");
    let result = format_string(&String::new(), &StringStyle::default());
    assert_eq!(result, "");
}

#[test]
fn single_text_color() {
    let result = format_string(
        &String::from("hello!"),
        &StringStyle::default().set_text_color(&StringColor::Red),
    );
    assert_eq!(result, "\x1b[31mhello!\u{1b}[0m");
}

#[test]
fn several_settings() {
    let result = format_string(
        &String::from("hello!"),
        &StringStyle::default()
            .set_text_color(&StringColor::Blue)
            .set_bold(true)
            .set_strikethrough(true)
            .set_blink_speed(&StringBlinkSpeed::Slow),
    );
    assert_eq!(result, "\x1b[1;9;5;34mhello!\u{1b}[0m");
}

#[test]
fn every_setting_in_fixed_order() {
    let result = format_string(
        &String::from("x"),
        &StringStyle::default()
            .set_background_color(&StringColor::LightCyan)
            .set_text_color(&StringColor::Gray)
            .set_blink_speed(&StringBlinkSpeed::Fast)
            .set_strikethrough(true)
            .set_underline(true)
            .set_italicized(true)
            .set_faint(true)
            .set_bold(true),
    );
    assert_eq!(result, "\x1b[1;2;3;4;9;6;90;106mx\x1b[0m");
}

#[test]
fn background_only() {
    let result = format_string(
        &String::from("bg"),
        &StringStyle::default().set_background_color(&StringColor::Black),
    );
    assert_eq!(result, "\x1b[40mbg\x1b[0m");
}

#[test]
fn unset_again_is_plain() {
    let style = StringStyle::default()
        .set_underline(true)
        .set_text_color(&StringColor::BrightWhite)
        .set_underline(false)
        .set_text_color(&StringColor::Unset);
    assert_eq!(format_string(&String::from("same"), &style), "same");
}
