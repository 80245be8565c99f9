//! The styles that markers name, and which of them is in force as the
//! markers of a text go by.

use crate::markup::{pieces_view, split, split_at};
use crate::text::{chars_of, same_text, text_of};
use vstd::prelude::*;

verus! {

/// One of the eight colours of a terminal.
#[derive(Clone, Copy, Debug, PartialEq, Eq, Structural)]
pub enum Color {
    Red,
    Green,
    Yellow,
    Blue,
    Magenta,
    Cyan,
    White,
    Black,
}

/// What a marker switches.
#[derive(Clone, Copy, Debug, PartialEq, Eq, Structural)]
pub enum Effect {
    Reverse,
    Bold,
    Italic,
    Dimmed,
    Underline,
    /// Text in one of the eight colours on the terminal's background.
    Tint(Color),
    /// Text in a colour on a coloured background; `None` stands for the
    /// terminal's own colour.
    Pair { foreground: Option<Color>, background: Option<Color> },
}

/// The colour of a name, written in capitals.
pub open spec fn color_named(name: Seq<char>) -> Option<Color> {
    if name == "RED"@ {
        Some(Color::Red)
    } else if name == "GREEN"@ {
        Some(Color::Green)
    } else if name == "YELLOW"@ {
        Some(Color::Yellow)
    } else if name == "BLUE"@ {
        Some(Color::Blue)
    } else if name == "MAGENTA"@ {
        Some(Color::Magenta)
    } else if name == "CYAN"@ {
        Some(Color::Cyan)
    } else if name == "WHITE"@ {
        Some(Color::White)
    } else if name == "BLACK"@ {
        Some(Color::Black)
    } else {
        None
    }
}

/// The underscore as a text.
pub open spec fn underscore() -> Seq<char> {
    seq!['_']
}

/// What the marker of a name switches: a name of three parts joined by
/// underscores, the first of them `COLOR`, names a foreground and a
/// background; else `REVERSE`, `BOLD`, `ITALIC`, `DIMMED` and `UNDERLINE`
/// name themselves, and `COLOR_` with a colour names text of that colour.
/// Other names switch nothing.
pub open spec fn effect_named(name: Seq<char>) -> Option<Effect> {
    let parts = split(name, underscore());
    if parts.len() == 3 && parts[0] == "COLOR"@ {
        Some(
            Effect::Pair { foreground: color_named(parts[1]), background: color_named(parts[2]) },
        )
    } else if name == "REVERSE"@ {
        Some(Effect::Reverse)
    } else if name == "BOLD"@ {
        Some(Effect::Bold)
    } else if name == "ITALIC"@ {
        Some(Effect::Italic)
    } else if name == "DIMMED"@ {
        Some(Effect::Dimmed)
    } else if name == "UNDERLINE"@ {
        Some(Effect::Underline)
    } else if parts.len() == 2 && parts[0] == "COLOR"@ {
        match color_named(parts[1]) {
            Some(color) => Some(Effect::Tint(color)),
            None => None,
        }
    } else {
        None
    }
}

/// Whether the effect is a colour.
pub open spec fn is_color(effect: Effect) -> bool {
    effect is Tint || effect is Pair
}

/// The styles switched on and not yet off, in the order in which they came:
/// colours and other effects apart.
pub struct StyleModel {
    pub colors: Seq<Effect>,
    pub effects: Seq<Effect>,
}

/// The styles after a marker. A style that is the last one of its kind
/// switched on is switched off; any other one is switched on over those
/// before it. Colours and other effects are kept apart. A marker that names
/// nothing changes nothing.
pub open spec fn toggled(style: StyleModel, effect: Option<Effect>) -> StyleModel {
    match effect {
        None => style,
        Some(named) => if is_color(named) {
            if style.colors.len() > 0 && style.colors.last() == named {
                StyleModel { colors: style.colors.drop_last(), effects: style.effects }
            } else {
                StyleModel { colors: style.colors.push(named), effects: style.effects }
            }
        } else {
            if style.effects.len() > 0 && style.effects.last() == named {
                StyleModel { colors: style.colors, effects: style.effects.drop_last() }
            } else {
                StyleModel { colors: style.colors, effects: style.effects.push(named) }
            }
        },
    }
}

/// The last of a sequence of effects.
pub open spec fn last_of(effects: Seq<Effect>) -> Option<Effect> {
    if effects.len() > 0 {
        Some(effects.last())
    } else {
        None
    }
}

/// A marker that comes twice in a row switches its style on and off again,
/// where the first of the two switched it on, that is, where the style was
/// not the last one of its kind in force.
pub proof fn lemma_twice_is_off(style: StyleModel, effect: Effect)
    requires
        if is_color(effect) {
            last_of(style.colors) != Some(effect)
        } else {
            last_of(style.effects) != Some(effect)
        },
    ensures
        toggled(toggled(style, Some(effect)), Some(effect)) == style,
{
    let once = toggled(style, Some(effect));
    if is_color(effect) {
        assert(once.colors.drop_last() =~= style.colors);
    } else {
        assert(once.effects.drop_last() =~= style.effects);
    }
}

/// The colour of a name.
fn color_of(name: &str) -> (color: Option<Color>)
    ensures
        color == color_named(name@),
{
    if same_text(name, "RED") {
        Some(Color::Red)
    } else if same_text(name, "GREEN") {
        Some(Color::Green)
    } else if same_text(name, "YELLOW") {
        Some(Color::Yellow)
    } else if same_text(name, "BLUE") {
        Some(Color::Blue)
    } else if same_text(name, "MAGENTA") {
        Some(Color::Magenta)
    } else if same_text(name, "CYAN") {
        Some(Color::Cyan)
    } else if same_text(name, "WHITE") {
        Some(Color::White)
    } else if same_text(name, "BLACK") {
        Some(Color::Black)
    } else {
        None
    }
}

/// What the marker of a name switches.
pub fn effect_of(name: &str) -> (effect: Option<Effect>)
    ensures
        effect == effect_named(name@),
{
    let mut bar: Vec<char> = Vec::new();
    bar.push('_');
    assert(bar@ =~= underscore());
    let parts = split_at(&chars_of(name), &bar);
    let ghost views = pieces_view(parts@);
    assert(views == split(name@, underscore()));
    let after_color = parts.len() >= 2 && same_text(text_of(&parts[0]).as_str(), "COLOR");
    assert(parts.len() >= 2 ==> views[0] == parts[0]@ && views[1] == parts[1]@);
    assert(parts.len() >= 3 ==> views[2] == parts[2]@);
    if parts.len() == 3 && after_color {
        Some(
            Effect::Pair {
                foreground: color_of(text_of(&parts[1]).as_str()),
                background: color_of(text_of(&parts[2]).as_str()),
            },
        )
    } else if same_text(name, "REVERSE") {
        Some(Effect::Reverse)
    } else if same_text(name, "BOLD") {
        Some(Effect::Bold)
    } else if same_text(name, "ITALIC") {
        Some(Effect::Italic)
    } else if same_text(name, "DIMMED") {
        Some(Effect::Dimmed)
    } else if same_text(name, "UNDERLINE") {
        Some(Effect::Underline)
    } else if parts.len() == 2 && after_color {
        match color_of(text_of(&parts[1]).as_str()) {
            Some(color) => Some(Effect::Tint(color)),
            None => None,
        }
    } else {
        None
    }
}

/// The styles in force while a text is written.
pub struct Style {
    colors: Vec<Effect>,
    effects: Vec<Effect>,
}

impl View for Style {
    type V = StyleModel;

    closed spec fn view(&self) -> StyleModel {
        StyleModel { colors: self.colors@, effects: self.effects@ }
    }
}

impl Style {
    /// No style in force.
    pub fn new() -> (style: Style)
        ensures
            style@.colors.len() == 0,
            style@.effects.len() == 0,
    {
        Style { colors: Vec::new(), effects: Vec::new() }
    }

    /// Takes in a marker: what it names is switched on or off.
    pub fn toggle(&mut self, effect: Option<Effect>)
        ensures
            final(self)@ == toggled(old(self)@, effect),
    {
        match effect {
            None => {},
            Some(named) => {
                let color = match named {
                    Effect::Tint(_) => true,
                    Effect::Pair { .. } => true,
                    _ => false,
                };
                if color {
                    if self.colors.len() > 0 && self.colors[self.colors.len() - 1] == named {
                        self.colors.pop();
                    } else {
                        self.colors.push(named);
                    }
                } else {
                    if self.effects.len() > 0 && self.effects[self.effects.len() - 1] == named {
                        self.effects.pop();
                    } else {
                        self.effects.push(named);
                    }
                }
            },
        }
    }

    /// The effect in force: the last one switched on and not off.
    pub fn effect(&self) -> (active: Option<Effect>)
        ensures
            active == last_of(self@.effects),
    {
        if self.effects.len() > 0 {
            Some(self.effects[self.effects.len() - 1])
        } else {
            None
        }
    }

    /// The colour in force: the last one switched on and not off.
    pub fn color(&self) -> (active: Option<Effect>)
        ensures
            active == last_of(self@.colors),
    {
        if self.colors.len() > 0 {
            Some(self.colors[self.colors.len() - 1])
        } else {
            None
        }
    }
}

} // verus!
