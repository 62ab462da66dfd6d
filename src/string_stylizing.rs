use vstd::prelude::*;

verus! {

/// The settings a style holds, as plain values.
pub struct StyleSettings {
    pub bold: bool,
    pub faint: bool,
    pub italicized: bool,
    pub underline: bool,
    pub strikethrough: bool,
    pub blink: StringBlinkSpeed,
    pub color: StringColor,
    pub background_color: StringColor,
}

/// A struct which holds stylizing options for Strings formatted through ANSI
#[derive(Clone, Copy, PartialEq, Eq, Structural)]
pub struct StringStyle {
    bold: bool,
    faint: bool,
    italicized: bool,
    underline: bool,
    strikethrough: bool,
    blink: StringBlinkSpeed,
    color: StringColor,
    background_color: StringColor,
}

impl View for StringStyle {
    type V = StyleSettings;

    closed spec fn view(&self) -> StyleSettings {
        StyleSettings {
            bold: self.bold,
            faint: self.faint,
            italicized: self.italicized,
            underline: self.underline,
            strikethrough: self.strikethrough,
            blink: self.blink,
            color: self.color,
            background_color: self.background_color,
        }
    }
}

/// The settings of a style that changes nothing.
pub open spec fn plain_settings() -> StyleSettings {
    StyleSettings {
        bold: false,
        faint: false,
        italicized: false,
        underline: false,
        strikethrough: false,
        blink: StringBlinkSpeed::Unset,
        color: StringColor::Unset,
        background_color: StringColor::Unset,
    }
}

impl StringStyle {
    pub fn set_bold(&self, bold: bool) -> (r: StringStyle)
        ensures
            r@ == (StyleSettings { bold, ..self@ }),
    {
        StringStyle { bold, ..*self }
    }

    pub fn set_italicized(&self, italicized: bool) -> (r: StringStyle)
        ensures
            r@ == (StyleSettings { italicized, ..self@ }),
    {
        StringStyle { italicized, ..*self }
    }

    pub fn set_underline(&self, underline: bool) -> (r: StringStyle)
        ensures
            r@ == (StyleSettings { underline, ..self@ }),
    {
        StringStyle { underline, ..*self }
    }

    pub fn set_strikethrough(&self, strikethrough: bool) -> (r: StringStyle)
        ensures
            r@ == (StyleSettings { strikethrough, ..self@ }),
    {
        StringStyle { strikethrough, ..*self }
    }

    pub fn set_faint(&self, faint: bool) -> (r: StringStyle)
        ensures
            r@ == (StyleSettings { faint, ..self@ }),
    {
        StringStyle { faint, ..*self }
    }

    pub fn set_text_color(&self, text_color: &StringColor) -> (r: StringStyle)
        ensures
            r@ == (StyleSettings { color: *text_color, ..self@ }),
    {
        StringStyle { color: *text_color, ..*self }
    }

    pub fn set_background_color(&self, background_color: &StringColor) -> (r: StringStyle)
        ensures
            r@ == (StyleSettings { background_color: *background_color, ..self@ }),
    {
        StringStyle { background_color: *background_color, ..*self }
    }

    pub fn set_blink_speed(&self, blink_speed: &StringBlinkSpeed) -> (r: StringStyle)
        ensures
            r@ == (StyleSettings { blink: *blink_speed, ..self@ }),
    {
        StringStyle { blink: *blink_speed, ..*self }
    }
}

impl Default for StringStyle {
    /// Constructs a new, default StringStyle
    ///
    /// Applying this style directly to a string will not affect it
    /// StringStyle methods must be run to change the state of the StringStyle
    fn default() -> (r: StringStyle)
        ensures
            r@ == plain_settings(),
    {
        StringStyle {
            bold: false,
            faint: false,
            italicized: false,
            underline: false,
            strikethrough: false,
            blink: StringBlinkSpeed::Unset,
            color: StringColor::Unset,
            background_color: StringColor::Unset,
        }
    }
}

/// All basic colors as defined by SGR
#[derive(Clone, Copy, PartialEq, Eq, Structural)]
pub enum StringColor {
    Black,
    Red,
    Green,
    Yellow,
    Blue,
    Magenta,
    Cyan,
    White,
    Gray,
    Pink,
    Lime,
    BrightYellow,
    LightBlue,
    LightMagenta,
    LightCyan,
    BrightWhite,
    Unset,
}

/// All blink speeds as defined by SGR
#[derive(Clone, Copy, PartialEq, Eq, Structural)]
pub enum StringBlinkSpeed {
    Unset,
    Slow,
    Fast,  // Not widely supported as a formatting option
}

/// One code where `on` holds, none otherwise.
pub open spec fn flag_codes(on: bool, code: Seq<char>) -> Seq<Seq<char>> {
    if on {
        seq![code]
    } else {
        seq![]
    }
}

/// The SGR code of a blink speed, none where it is unset.
pub open spec fn blink_codes(b: StringBlinkSpeed) -> Seq<Seq<char>> {
    match b {
        StringBlinkSpeed::Unset => seq![],
        StringBlinkSpeed::Slow => seq![seq!['5']],
        StringBlinkSpeed::Fast => seq![seq!['6']],
    }
}

/// The SGR code of a text color, none where it is unset.
pub open spec fn text_color_codes(c: StringColor) -> Seq<Seq<char>> {
    match c {
        StringColor::Black => seq![seq!['3', '0']],
        StringColor::Red => seq![seq!['3', '1']],
        StringColor::Green => seq![seq!['3', '2']],
        StringColor::Yellow => seq![seq!['3', '3']],
        StringColor::Blue => seq![seq!['3', '4']],
        StringColor::Magenta => seq![seq!['3', '5']],
        StringColor::Cyan => seq![seq!['3', '6']],
        StringColor::White => seq![seq!['3', '7']],
        StringColor::Gray => seq![seq!['9', '0']],
        StringColor::Pink => seq![seq!['9', '1']],
        StringColor::Lime => seq![seq!['9', '2']],
        StringColor::BrightYellow => seq![seq!['9', '3']],
        StringColor::LightBlue => seq![seq!['9', '4']],
        StringColor::LightMagenta => seq![seq!['9', '5']],
        StringColor::LightCyan => seq![seq!['9', '6']],
        StringColor::BrightWhite => seq![seq!['9', '7']],
        StringColor::Unset => seq![],
    }
}

/// The SGR code of a background color, none where it is unset.
pub open spec fn background_codes(c: StringColor) -> Seq<Seq<char>> {
    match c {
        StringColor::Black => seq![seq!['4', '0']],
        StringColor::Red => seq![seq!['4', '1']],
        StringColor::Green => seq![seq!['4', '2']],
        StringColor::Yellow => seq![seq!['4', '3']],
        StringColor::Blue => seq![seq!['4', '4']],
        StringColor::Magenta => seq![seq!['4', '5']],
        StringColor::Cyan => seq![seq!['4', '6']],
        StringColor::White => seq![seq!['4', '7']],
        StringColor::Gray => seq![seq!['1', '0', '0']],
        StringColor::Pink => seq![seq!['1', '0', '1']],
        StringColor::Lime => seq![seq!['1', '0', '2']],
        StringColor::BrightYellow => seq![seq!['1', '0', '3']],
        StringColor::LightBlue => seq![seq!['1', '0', '4']],
        StringColor::LightMagenta => seq![seq!['1', '0', '5']],
        StringColor::LightCyan => seq![seq!['1', '0', '6']],
        StringColor::BrightWhite => seq![seq!['1', '0', '7']],
        StringColor::Unset => seq![],
    }
}

/// The SGR codes of a style, in the order bold, faint, italic, underline,
/// strikethrough, blink, text color, background color; unset settings give none.
pub open spec fn style_codes(s: StyleSettings) -> Seq<Seq<char>> {
    flag_codes(s.bold, seq!['1']) + flag_codes(s.faint, seq!['2']) + flag_codes(
        s.italicized,
        seq!['3'],
    ) + flag_codes(s.underline, seq!['4']) + flag_codes(s.strikethrough, seq!['9'])
        + blink_codes(s.blink) + text_color_codes(s.color) + background_codes(
        s.background_color,
    )
}

/// Codes joined by `;`.
pub open spec fn joined(codes: Seq<Seq<char>>) -> Seq<char>
    decreases codes.len(),
{
    if codes.len() == 0 {
        seq![]
    } else if codes.len() == 1 {
        codes[0]
    } else {
        joined(codes.drop_last()).push(';') + codes.last()
    }
}

/// `text` wrapped in the escape sequence of the style's codes and a reset,
/// or `text` itself where the style sets nothing.
pub open spec fn styled(text: Seq<char>, s: StyleSettings) -> Seq<char> {
    let codes = style_codes(s);
    if codes.len() == 0 {
        text
    } else {
        seq!['\x1b', '['] + joined(codes) + seq!['m'] + text + seq!['\x1b', '[', '0', 'm']
    }
}

/// The SGR code of a text color.
fn text_color_code(c: StringColor) -> (r: Vec<&'static str>)
    ensures
        r@.map_values(|s: &str| s@) == text_color_codes(c),
{
    let code = match c {
        StringColor::Black => "30",
        StringColor::Red => "31",
        StringColor::Green => "32",
        StringColor::Yellow => "33",
        StringColor::Blue => "34",
        StringColor::Magenta => "35",
        StringColor::Cyan => "36",
        StringColor::White => "37",
        StringColor::Gray => "90",
        StringColor::Pink => "91",
        StringColor::Lime => "92",
        StringColor::BrightYellow => "93",
        StringColor::LightBlue => "94",
        StringColor::LightMagenta => "95",
        StringColor::LightCyan => "96",
        StringColor::BrightWhite => "97",
        StringColor::Unset => {
            let none: Vec<&'static str> = Vec::new();
            assert(none@.map_values(|s: &str| s@) =~= text_color_codes(c));
            return none;
        },
    };
    proof {
        reveal_strlit("30");
        reveal_strlit("31");
        reveal_strlit("32");
        reveal_strlit("33");
        reveal_strlit("34");
        reveal_strlit("35");
        reveal_strlit("36");
        reveal_strlit("37");
        reveal_strlit("90");
        reveal_strlit("91");
        reveal_strlit("92");
        reveal_strlit("93");
        reveal_strlit("94");
        reveal_strlit("95");
        reveal_strlit("96");
        reveal_strlit("97");
    }
    let mut r: Vec<&'static str> = Vec::new();
    r.push(code);
    assert(r@.map_values(|s: &str| s@) =~~= text_color_codes(c));
    r
}

/// The SGR code of a background color.
fn background_code(c: StringColor) -> (r: Vec<&'static str>)
    ensures
        r@.map_values(|s: &str| s@) == background_codes(c),
{
    let code = match c {
        StringColor::Black => "40",
        StringColor::Red => "41",
        StringColor::Green => "42",
        StringColor::Yellow => "43",
        StringColor::Blue => "44",
        StringColor::Magenta => "45",
        StringColor::Cyan => "46",
        StringColor::White => "47",
        StringColor::Gray => "100",
        StringColor::Pink => "101",
        StringColor::Lime => "102",
        StringColor::BrightYellow => "103",
        StringColor::LightBlue => "104",
        StringColor::LightMagenta => "105",
        StringColor::LightCyan => "106",
        StringColor::BrightWhite => "107",
        StringColor::Unset => {
            let none: Vec<&'static str> = Vec::new();
            assert(none@.map_values(|s: &str| s@) =~= background_codes(c));
            return none;
        },
    };
    proof {
        reveal_strlit("40");
        reveal_strlit("41");
        reveal_strlit("42");
        reveal_strlit("43");
        reveal_strlit("44");
        reveal_strlit("45");
        reveal_strlit("46");
        reveal_strlit("47");
        reveal_strlit("100");
        reveal_strlit("101");
        reveal_strlit("102");
        reveal_strlit("103");
        reveal_strlit("104");
        reveal_strlit("105");
        reveal_strlit("106");
        reveal_strlit("107");
    }
    let mut r: Vec<&'static str> = Vec::new();
    r.push(code);
    assert(r@.map_values(|s: &str| s@) =~~= background_codes(c));
    r
}

/// Adds `code` where `on` holds.
fn push_flag(codes: &mut Vec<&'static str>, on: bool, code: &'static str)
    ensures
        final(codes)@.map_values(|s: &str| s@) == old(codes)@.map_values(|s: &str| s@)
            + flag_codes(on, code@),
{
    let ghost before = codes@.map_values(|s: &str| s@);
    if on {
        codes.push(code);
    }
    assert(codes@.map_values(|s: &str| s@) =~= before + flag_codes(on, code@));
}

/// Adds the codes of `more`.
fn push_codes(codes: &mut Vec<&'static str>, more: Vec<&'static str>)
    ensures
        final(codes)@.map_values(|s: &str| s@) == old(codes)@.map_values(|s: &str| s@)
            + more@.map_values(|s: &str| s@),
{
    let ghost before = codes@.map_values(|s: &str| s@);
    let ghost added = more@.map_values(|s: &str| s@);
    let mut more = more;
    codes.append(&mut more);
    assert(codes@.map_values(|s: &str| s@) =~= before + added);
}

/// The SGR code of a blink speed.
fn blink_code(b: StringBlinkSpeed) -> (r: Vec<&'static str>)
    ensures
        r@.map_values(|s: &str| s@) == blink_codes(b),
{
    proof {
        reveal_strlit("5");
        reveal_strlit("6");
    }
    let mut r: Vec<&'static str> = Vec::new();
    match b {
        StringBlinkSpeed::Unset => {},
        StringBlinkSpeed::Slow => r.push("5"),
        StringBlinkSpeed::Fast => r.push("6"),
    }
    assert(r@.map_values(|s: &str| s@) =~~= blink_codes(b));
    r
}

/// The SGR codes of a style, in their fixed order.
fn sgr_codes(style: &StringStyle) -> (r: Vec<&'static str>)
    ensures
        r@.map_values(|s: &str| s@) == style_codes(style@),
{
    proof {
        reveal_strlit("1");
        reveal_strlit("2");
        reveal_strlit("3");
        reveal_strlit("4");
        reveal_strlit("9");
    }
    let ghost st = style@;
    assert("1"@ =~= seq!['1']);
    assert("2"@ =~= seq!['2']);
    assert("3"@ =~= seq!['3']);
    assert("4"@ =~= seq!['4']);
    assert("9"@ =~= seq!['9']);
    let mut codes: Vec<&'static str> = Vec::new();
    assert(codes@.map_values(|s: &str| s@) =~= seq![]);
    push_flag(&mut codes, style.bold, "1");
    assert(seq![] + flag_codes(st.bold, seq!['1']) =~= flag_codes(st.bold, seq!['1']));
    let ghost c1 = codes@.map_values(|s: &str| s@);
    push_flag(&mut codes, style.faint, "2");
    let ghost c2 = codes@.map_values(|s: &str| s@);
    assert(c2 == c1 + flag_codes(st.faint, seq!['2']));
    push_flag(&mut codes, style.italicized, "3");
    let ghost c3 = codes@.map_values(|s: &str| s@);
    assert(c3 == c2 + flag_codes(st.italicized, seq!['3']));
    push_flag(&mut codes, style.underline, "4");
    let ghost c4 = codes@.map_values(|s: &str| s@);
    assert(c4 == c3 + flag_codes(st.underline, seq!['4']));
    push_flag(&mut codes, style.strikethrough, "9");
    let ghost c5 = codes@.map_values(|s: &str| s@);
    assert(c5 == c4 + flag_codes(st.strikethrough, seq!['9']));
    push_codes(&mut codes, blink_code(style.blink));
    let ghost c6 = codes@.map_values(|s: &str| s@);
    assert(c6 == c5 + blink_codes(st.blink));
    push_codes(&mut codes, text_color_code(style.color));
    let ghost c7 = codes@.map_values(|s: &str| s@);
    assert(c7 == c6 + text_color_codes(st.color));
    push_codes(&mut codes, background_code(style.background_color));
    assert(codes@.map_values(|s: &str| s@) == c7 + background_codes(st.background_color));
    codes
}

/// `ESC[`, then the codes joined by `;`.
fn escape_prefix(codes: &Vec<&'static str>) -> (r: String)
    ensures
        r@ == seq!['\x1b', '['] + joined(codes@.map_values(|s: &str| s@)),
{
    proof {
        reveal_strlit("\x1b[");
        reveal_strlit(";");
    }
    let ghost cs = codes@.map_values(|s: &str| s@);
    let mut prefix = String::from_str("\x1b[");
    let mut i: usize = 0;
    while i < codes.len()
        invariant
            cs == codes@.map_values(|s: &str| s@),
            ";"@ == seq![';'],
            i <= codes@.len(),
            prefix@ == seq!['\x1b', '['] + joined(cs.take(i as int)),
        decreases codes@.len() - i,
    {
        let ghost before = prefix@;
        if i > 0 {
            prefix.append(";");
        }
        let code: &str = codes[i];
        prefix.append(code);
        proof {
            let t = cs.take(i + 1);
            assert(t.drop_last() =~= cs.take(i as int));
            assert(t.last() == code@);
            if i == 0 {
                assert(joined(cs.take(0)) =~= seq![]);
                assert(joined(t) == t[0]);
            } else {
                assert(joined(t) == joined(cs.take(i as int)).push(';') + code@);
            }
        }
        i += 1;
        assert(prefix@ =~= seq!['\x1b', '['] + joined(cs.take(i as int)));
    }
    assert(cs.take(i as int) =~= cs);
    prefix
}

/// Printed strings are stylized using ANSI escape code SGR (Select Graphic
/// Rendition) parameters: the codes of the style, joined by `;`, stand between
/// `ESC[` and `m` before the text, and `ESC[0m` resets the style after it. A
/// style that sets nothing leaves the text as it is.
pub fn format_string(unformatted_string: &String, style: &StringStyle) -> (r: String)
    ensures
        r@ == styled(unformatted_string@, style@),
{
    let codes = sgr_codes(style);
    if codes.len() == 0 {
        // No formatting required, return input string
        return unformatted_string.clone();
    }
    proof {
        reveal_strlit("m");
        reveal_strlit("\x1b[0m");
    }
    let mut formatted_string = escape_prefix(&codes);
    formatted_string.append("m");
    formatted_string.append(unformatted_string.as_str());
    formatted_string.append("\x1b[0m");
    assert(formatted_string@ =~= styled(unformatted_string@, style@));
    formatted_string
}

/// A style that sets nothing leaves every text as it is.
pub proof fn lemma_plain_style_unchanged(text: Seq<char>)
    ensures
        styled(text, plain_settings()) == text,
{
    assert(style_codes(plain_settings()) =~= seq![]);
}

/// A code ends in a digit-like character, not in the separator.
spec fn code_ends_well(c: Seq<char>) -> bool {
    c.len() >= 1 && c.last() != ';'
}

spec fn codes_end_well(codes: Seq<Seq<char>>) -> bool {
    forall|i: int| 0 <= i < codes.len() ==> code_ends_well(#[trigger] codes[i])
}

proof fn lemma_color_codes_end_well(c: StringColor)
    ensures
        codes_end_well(text_color_codes(c)),
        codes_end_well(background_codes(c)),
{
}

proof fn lemma_concat_ends_well(a: Seq<Seq<char>>, b: Seq<Seq<char>>)
    requires
        codes_end_well(a),
        codes_end_well(b),
    ensures
        codes_end_well(a + b),
{
    assert forall|i: int| 0 <= i < (a + b).len() implies code_ends_well(#[trigger] (a + b)[i]) by {
        if i < a.len() {
            assert((a + b)[i] == a[i]);
        } else {
            assert((a + b)[i] == b[i - a.len()]);
        }
    }
}

proof fn lemma_style_codes_end_well(s: StyleSettings)
    ensures
        codes_end_well(style_codes(s)),
{
    lemma_color_codes_end_well(s.color);
    lemma_color_codes_end_well(s.background_color);
    let f1 = flag_codes(s.bold, seq!['1']);
    let f2 = flag_codes(s.faint, seq!['2']);
    let f3 = flag_codes(s.italicized, seq!['3']);
    let f4 = flag_codes(s.underline, seq!['4']);
    let f5 = flag_codes(s.strikethrough, seq!['9']);
    let b = blink_codes(s.blink);
    let t = text_color_codes(s.color);
    let g = background_codes(s.background_color);
    assert(codes_end_well(f1));
    assert(codes_end_well(f2));
    assert(codes_end_well(f3));
    assert(codes_end_well(f4));
    assert(codes_end_well(f5));
    assert(codes_end_well(b));
    lemma_concat_ends_well(f1, f2);
    lemma_concat_ends_well(f1 + f2, f3);
    lemma_concat_ends_well(f1 + f2 + f3, f4);
    lemma_concat_ends_well(f1 + f2 + f3 + f4, f5);
    lemma_concat_ends_well(f1 + f2 + f3 + f4 + f5, b);
    lemma_concat_ends_well(f1 + f2 + f3 + f4 + f5 + b, t);
    lemma_concat_ends_well(f1 + f2 + f3 + f4 + f5 + b + t, g);
}

proof fn lemma_joined_last(codes: Seq<Seq<char>>)
    requires
        codes.len() >= 1,
        codes.last().len() >= 1,
    ensures
        joined(codes).len() >= 1,
        joined(codes).last() == codes.last().last(),
{
}

/// Where a style sets something, the text stands between `ESC[`, the codes
/// joined by `;` and `m`, and the reset `ESC[0m`; no `;` comes right before
/// the `m`.
pub proof fn lemma_styled_shape(text: Seq<char>, s: StyleSettings)
    requires
        style_codes(s).len() > 0,
    ensures
        styled(text, s) == seq!['\x1b', '['] + joined(style_codes(s)) + seq!['m'] + text + seq![
            '\x1b',
            '[',
            '0',
            'm',
        ],
        joined(style_codes(s)).len() >= 1,
        joined(style_codes(s)).last() != ';',
{
    let codes = style_codes(s);
    lemma_style_codes_end_well(s);
    assert(code_ends_well(codes[codes.len() - 1]));
    lemma_joined_last(codes);
}

} // verus!
