//! Colors and the color theme.

use vstd::prelude::*;
use crate::text::str_eq;

verus! {

/// An RGB color.
#[derive(Debug, Default, Clone, Copy, PartialEq, Eq, Structural)]
pub struct Color(pub u8, pub u8, pub u8);

impl Color {
    /// The color packed as `0xRRGGBB`.
    pub fn into_u32(self) -> (r: u32)
        ensures
            r == self.0 * 65536 + self.1 * 256 + self.2,
    {
        let r = self.0 as u32;
        let g = self.1 as u32;
        let b = self.2 as u32;
        let v = r << 16 | g << 8 | b;
        assert(v == r * 65536 + g * 256 + b) by (bit_vector)
            requires
                v == r << 16 | g << 8 | b,
                r < 256,
                g < 256,
                b < 256,
        ;
        v
    }

    /// The color of `0xRRGGBB`; higher bits are ignored.
    pub fn from_u32(hex: u32) -> (r: Color)
        ensures
            r.0 == (hex / 65536) % 256,
            r.1 == (hex / 256) % 256,
            r.2 == hex % 256,
    {
        let r = ((hex >> 16) & 0xff) as u8;
        let g = ((hex >> 8) & 0xff) as u8;
        let b = (hex & 0xff) as u8;
        assert(((hex >> 16) & 0xff) == (hex / 65536) % 256 && ((hex >> 8) & 0xff) == (hex / 256) % 256
            && (hex & 0xff) == hex % 256) by (bit_vector);
        Color(r, g, b)
    }
}

/// Packing a color and unpacking it gives the color back.
pub proof fn lemma_color_roundtrip(c: Color)
    ensures
        ({
            let v = c.0 * 65536 + c.1 * 256 + c.2;
            &&& (v / 65536) % 256 == c.0
            &&& (v / 256) % 256 == c.1
            &&& v % 256 == c.2
        }),
{
    let r = c.0 as int;
    let g = c.1 as int;
    let b = c.2 as int;
    assert((r * 65536 + g * 256 + b) / 65536 == r) by (nonlinear_arith)
        requires
            0 <= r < 256,
            0 <= g < 256,
            0 <= b < 256,
    ;
    assert((r * 65536 + g * 256 + b) / 256 == r * 256 + g) by (nonlinear_arith)
        requires
            0 <= r < 256,
            0 <= g < 256,
            0 <= b < 256,
    ;
    assert((r * 256 + g) % 256 == g) by (nonlinear_arith)
        requires
            0 <= r < 256,
            0 <= g < 256,
    ;
    assert((r * 65536 + g * 256 + b) % 256 == b) by (nonlinear_arith)
        requires
            0 <= r < 256,
            0 <= g < 256,
            0 <= b < 256,
    ;
}

/// The color packed as `0xRRGGBB` in `hex`.
pub open spec fn color_of(hex: u32) -> Color {
    Color(((hex / 65536) % 256) as u8, ((hex / 256) % 256) as u8, (hex % 256) as u8)
}

/// The colors of the gruvbox theme, in the order of [`theme_color_names`].
pub open spec fn gruvbox_colors() -> Seq<Color> {
    seq![
        color_of(0x1d2021),
        color_of(0xfabd2f),
        color_of(0x504945),
        color_of(0x282828),
        color_of(0xcc241d),
        color_of(0xfabd2f),
        color_of(0x458588),
        color_of(0x504945),
        color_of(0xebdbb2),
        color_of(0x7c6f64),
        color_of(0xfe8019),
        color_of(0x8ec07c),
        color_of(0xa89984),
        color_of(0xb8bb26),
        color_of(0xd3869b),
    ]
}

/// The gruvbox color theme.
pub fn gruvbox_theme() -> (r: Theme)
    ensures
        r.colors() == gruvbox_colors(),
{
    Theme {
        background: Color::from_u32(0x1d2021),
        highlight: Color::from_u32(0xfabd2f),
        statusbar_active_background: Color::from_u32(0x504945),
        statusbar_inactive_background: Color::from_u32(0x282828),
        normal_cursor: Color::from_u32(0xcc241d),
        insert_cursor: Color::from_u32(0xfabd2f),
        select_cursor: Color::from_u32(0x458588),
        token_whitespace: Color::from_u32(0x504945),
        token_text: Color::from_u32(0xebdbb2),
        token_comment: Color::from_u32(0x7c6f64),
        token_keyword: Color::from_u32(0xfe8019),
        token_type: Color::from_u32(0x8ec07c),
        token_symbol: Color::from_u32(0xa89984),
        token_string: Color::from_u32(0xb8bb26),
        token_literal: Color::from_u32(0xd3869b),
    }
}

impl Default for Theme {
    fn default() -> (r: Self)
        ensures
            r.colors() == gruvbox_colors(),
    {
        gruvbox_theme()
    }
}

/// The names of the theme's colors, in the order of [`Theme::colors`].
pub open spec fn theme_color_names() -> Seq<Seq<char>> {
    seq![
        "background"@,
        "highlight"@,
        "statusbar_active_background"@,
        "statusbar_inactive_background"@,
        "normal_cursor"@,
        "insert_cursor"@,
        "select_cursor"@,
        "token_whitespace"@,
        "token_text"@,
        "token_comment"@,
        "token_keyword"@,
        "token_type"@,
        "token_symbol"@,
        "token_string"@,
        "token_literal"@,
    ]
}

/// The colors of the editor.
pub struct Theme {
    pub background: Color,
    pub highlight: Color,
    pub statusbar_active_background: Color,
    pub statusbar_inactive_background: Color,
    pub normal_cursor: Color,
    pub insert_cursor: Color,
    pub select_cursor: Color,
    pub token_whitespace: Color,
    pub token_text: Color,
    pub token_comment: Color,
    pub token_keyword: Color,
    pub token_type: Color,
    pub token_symbol: Color,
    pub token_string: Color,
    pub token_literal: Color,
}

impl Theme {
    /// The colors in the order of [`theme_color_names`].
    pub open spec fn colors(&self) -> Seq<Color> {
        seq![
            self.background,
            self.highlight,
            self.statusbar_active_background,
            self.statusbar_inactive_background,
            self.normal_cursor,
            self.insert_cursor,
            self.select_cursor,
            self.token_whitespace,
            self.token_text,
            self.token_comment,
            self.token_keyword,
            self.token_type,
            self.token_symbol,
            self.token_string,
            self.token_literal,
        ]
    }

    /// The color called `name`, to change it.
    pub fn color_from_name(&mut self, name: &str) -> (r: Option<&mut Color>)
        ensures
            r is None <==> !theme_color_names().contains(name@),
            r is None ==> *final(self) == *old(self),
            r is Some ==> exists|i: int| #![trigger theme_color_names()[i]]
                0 <= i < 15 && theme_color_names()[i] == name@
                && *r.unwrap() == old(self).colors()[i]
                && final(self).colors() == old(self).colors().update(i, *final(r.unwrap())),
    {
        if str_eq(name, "background") {
            proof {
                reveal_strlit("background");
                assert(theme_color_names()[0] == name@);
            }
            return Some(&mut self.background);
        }
        if str_eq(name, "highlight") {
            proof {
                reveal_strlit("highlight");
                assert(theme_color_names()[1] == name@);
            }
            return Some(&mut self.highlight);
        }
        if str_eq(name, "statusbar_active_background") {
            proof {
                reveal_strlit("statusbar_active_background");
                assert(theme_color_names()[2] == name@);
            }
            return Some(&mut self.statusbar_active_background);
        }
        if str_eq(name, "statusbar_inactive_background") {
            proof {
                reveal_strlit("statusbar_inactive_background");
                assert(theme_color_names()[3] == name@);
            }
            return Some(&mut self.statusbar_inactive_background);
        }
        if str_eq(name, "normal_cursor") {
            proof {
                reveal_strlit("normal_cursor");
                assert(theme_color_names()[4] == name@);
            }
            return Some(&mut self.normal_cursor);
        }
        if str_eq(name, "insert_cursor") {
            proof {
                reveal_strlit("insert_cursor");
                assert(theme_color_names()[5] == name@);
            }
            return Some(&mut self.insert_cursor);
        }
        if str_eq(name, "select_cursor") {
            proof {
                reveal_strlit("select_cursor");
                assert(theme_color_names()[6] == name@);
            }
            return Some(&mut self.select_cursor);
        }
        if str_eq(name, "token_whitespace") {
            proof {
                reveal_strlit("token_whitespace");
                assert(theme_color_names()[7] == name@);
            }
            return Some(&mut self.token_whitespace);
        }
        if str_eq(name, "token_text") {
            proof {
                reveal_strlit("token_text");
                assert(theme_color_names()[8] == name@);
            }
            return Some(&mut self.token_text);
        }
        if str_eq(name, "token_comment") {
            proof {
                reveal_strlit("token_comment");
                assert(theme_color_names()[9] == name@);
            }
            return Some(&mut self.token_comment);
        }
        if str_eq(name, "token_keyword") {
            proof {
                reveal_strlit("token_keyword");
                assert(theme_color_names()[10] == name@);
            }
            return Some(&mut self.token_keyword);
        }
        if str_eq(name, "token_type") {
            proof {
                reveal_strlit("token_type");
                assert(theme_color_names()[11] == name@);
            }
            return Some(&mut self.token_type);
        }
        if str_eq(name, "token_symbol") {
            proof {
                reveal_strlit("token_symbol");
                assert(theme_color_names()[12] == name@);
            }
            return Some(&mut self.token_symbol);
        }
        if str_eq(name, "token_string") {
            proof {
                reveal_strlit("token_string");
                assert(theme_color_names()[13] == name@);
            }
            return Some(&mut self.token_string);
        }
        if str_eq(name, "token_literal") {
            proof {
                reveal_strlit("token_literal");
                assert(theme_color_names()[14] == name@);
            }
            return Some(&mut self.token_literal);
        }
        proof {
            reveal_strlit("background");
            reveal_strlit("highlight");
            reveal_strlit("statusbar_active_background");
            reveal_strlit("statusbar_inactive_background");
            reveal_strlit("normal_cursor");
            reveal_strlit("insert_cursor");
            reveal_strlit("select_cursor");
            reveal_strlit("token_whitespace");
            reveal_strlit("token_text");
            reveal_strlit("token_comment");
            reveal_strlit("token_keyword");
            reveal_strlit("token_type");
            reveal_strlit("token_symbol");
            reveal_strlit("token_string");
            reveal_strlit("token_literal");
            assert(!theme_color_names().contains(name@)) by {
                if theme_color_names().contains(name@) {
                    let i = choose|i: int| 0 <= i < theme_color_names().len() && theme_color_names()[i] == name@;
                    assert(theme_color_names()[i] == name@);
                }
            }
        }
        None
    }
}

} // verus!
