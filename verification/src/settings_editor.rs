//! Keyboard movement through the analysis-settings controls.

use vstd::prelude::*;

use crate::text::{chars_of, push_str, spellings, string_from, string_of, trim_chars, trimmed};

verus! {

/// A control whose value is picked from a list.
#[derive(Debug, Clone, Copy, PartialEq, Eq, Structural)]
pub enum Choice {
    Fft,
    Window,
    Aggregation,
    Palette,
    Mode,
}

/// A control whose value is typed.
#[derive(Debug, Clone, Copy, PartialEq, Eq, Structural)]
pub enum Number {
    Overlap,
    Range,
}

/// Every control of the settings form, in tab order.
#[derive(Debug, Clone, Copy, PartialEq, Eq, Structural)]
pub enum Control {
    Fft,
    Window,
    Overlap,
    Aggregation,
    Palette,
    Mode,
    Range,
    Reset,
}

/// How the colour range is chosen, without the number a fixed one carries.
#[derive(Debug, Clone, Copy, PartialEq, Eq, Structural)]
pub enum RangeMode {
    Default,
    Fixed,
    Auto,
}

/// The controls in tab order.
pub open spec fn tab_order() -> Seq<Control> {
    seq![
        Control::Fft,
        Control::Window,
        Control::Overlap,
        Control::Aggregation,
        Control::Palette,
        Control::Mode,
        Control::Range,
        Control::Reset,
    ]
}

/// Where a control stands in tab order.
pub open spec fn position(control: Control) -> int {
    match control {
        Control::Fft => 0,
        Control::Window => 1,
        Control::Overlap => 2,
        Control::Aggregation => 3,
        Control::Palette => 4,
        Control::Mode => 5,
        Control::Range => 6,
        Control::Reset => 7,
    }
}

/// The control `offset` places after `control` in tab order, wrapping.
pub open spec fn after(control: Control, offset: int) -> Control {
    tab_order()[(position(control) + offset) % 8]
}

impl Control {
    /// The list a control picks from, if it has one.
    pub open spec fn spec_choice(self) -> Option<Choice> {
        match self {
            Control::Fft => Some(Choice::Fft),
            Control::Window => Some(Choice::Window),
            Control::Aggregation => Some(Choice::Aggregation),
            Control::Palette => Some(Choice::Palette),
            Control::Mode => Some(Choice::Mode),
            _ => None,
        }
    }

    /// The number a control types, if it is a typed field.
    pub open spec fn spec_number(self) -> Option<Number> {
        match self {
            Control::Overlap => Some(Number::Overlap),
            Control::Range => Some(Number::Range),
            _ => None,
        }
    }

    #[verifier::when_used_as_spec(spec_choice)]
    pub fn choice(self) -> (choice: Option<Choice>)
        ensures
            choice == self.spec_choice(),
    {
        match self {
            Control::Fft => Some(Choice::Fft),
            Control::Window => Some(Choice::Window),
            Control::Aggregation => Some(Choice::Aggregation),
            Control::Palette => Some(Choice::Palette),
            Control::Mode => Some(Choice::Mode),
            _ => None,
        }
    }

    #[verifier::when_used_as_spec(spec_number)]
    pub fn number(self) -> (number: Option<Number>)
        ensures
            number == self.spec_number(),
    {
        match self {
            Control::Overlap => Some(Number::Overlap),
            Control::Range => Some(Number::Range),
            _ => None,
        }
    }

    fn from_position(index: usize) -> (control: Self)
        requires
            index < 8,
        ensures
            control == tab_order()[index as int],
            position(control) == index,
    {
        match index {
            0 => Control::Fft,
            1 => Control::Window,
            2 => Control::Overlap,
            3 => Control::Aggregation,
            4 => Control::Palette,
            5 => Control::Mode,
            6 => Control::Range,
            _ => Control::Reset,
        }
    }

    fn index(self) -> (index: usize)
        ensures
            index == position(self),
    {
        match self {
            Control::Fft => 0,
            Control::Window => 1,
            Control::Overlap => 2,
            Control::Aggregation => 3,
            Control::Palette => 4,
            Control::Mode => 5,
            Control::Range => 6,
            Control::Reset => 7,
        }
    }
}

/// Tab (or shift-tab): the next control in tab order, wrapping, passing
/// over the range field unless the range is fixed.
pub fn next_control(active: Control, forward: bool, range_fixed: bool) -> (next: Control)
    ensures
        ({
            let step = if forward { 1int } else { 7int };
            let first = after(active, step);
            if first != Control::Range || range_fixed {
                next == first
            } else {
                next == after(active, 2 * step)
            }
        }),
        next != Control::Range || range_fixed,
{
    let current = active.index();
    let step: usize = if forward { 1 } else { 7 };
    let first = Control::from_position((current + step) % 8);
    if first != Control::Range || range_fixed {
        first
    } else {
        proof {
            assert((position(active) + 2 * step) % 8 == ((position(active) + step) % 8 + step) % 8);
        }
        Control::from_position(((current + step) % 8 + step) % 8)
    }
}

/// The label of a colour-range mode, as the mode list spells it.
pub fn mode_name(range: RangeMode) -> (name: &'static str)
    ensures
        range == RangeMode::Default ==> name@ == "Absolute full scale"@,
        range == RangeMode::Fixed ==> name@ == "Below measured peak"@,
        range == RangeMode::Auto ==> name@ == "Automatic"@,
{
    match range {
        RangeMode::Default => "Absolute full scale",
        RangeMode::Fixed => "Below measured peak",
        RangeMode::Auto => "Automatic",
    }
}

/// How the mode list spells a colour-range mode.
pub open spec fn mode_spelling(range: RangeMode) -> Seq<char> {
    match range {
        RangeMode::Default => "Absolute full scale"@,
        RangeMode::Fixed => "Below measured peak"@,
        RangeMode::Auto => "Automatic"@,
    }
}

/// The mode an option of the mode list picks: anything but the full-scale
/// and automatic options fixes the range.
pub open spec fn mode_read(name: Seq<char>) -> RangeMode {
    if name == "Absolute full scale"@ {
        RangeMode::Default
    } else if name == "Automatic"@ {
        RangeMode::Auto
    } else {
        RangeMode::Fixed
    }
}

/// The mode the option `name` of the mode list picks.
pub fn range_mode_named(name: &str) -> (range: RangeMode)
    ensures
        range == mode_read(name@),
{
    if crate::text::same_text(name, "Absolute full scale") {
        RangeMode::Default
    } else if crate::text::same_text(name, "Automatic") {
        RangeMode::Auto
    } else {
        RangeMode::Fixed
    }
}

/// Picking a mode's own option from the list gives that mode back.
pub proof fn lemma_mode_names_read_back(range: RangeMode)
    ensures
        mode_read(mode_spelling(range)) == range,
{
    reveal_strlit("Absolute full scale");
    reveal_strlit("Below measured peak");
    reveal_strlit("Automatic");
    assert("Below measured peak"@[0] != "Absolute full scale"@[0]);
    assert("Below measured peak"@[0] != "Automatic"@[0]);
    assert("Automatic"@.len() != "Absolute full scale"@.len());
}

/// Where `value` first stands in `items`, or the first option where it is
/// not among them.
pub open spec fn index_in(items: Seq<Seq<char>>, value: Seq<char>) -> int {
    if exists|i: int| 0 <= i < items.len() && items[i] == value {
        choose|i: int| 0 <= i < items.len() && items[i] == value && forall|j: int| 0 <= j < i ==> items[j] != value
    } else {
        0
    }
}

/// The index of the option showing `value`, or the first option where none
/// does: where an option list opens.
pub fn selected_index(items: &[String], value: &str) -> (index: usize)
    ensures
        index == index_in(spellings(items@), value@),
{
    let ghost names = spellings(items@);
    let mut k: usize = 0;
    while k < items.len()
        invariant
            k <= items@.len(),
            names == spellings(items@),
            forall|j: int| 0 <= j < k ==> names[j] != value@,
        decreases items@.len() - k,
    {
        if crate::text::same_text(items[k].as_str(), value) {
            assert(names[k as int] == value@);
            assert(forall|j: int| 0 <= j < k ==> names[j] != value@);
            let ghost chosen = index_in(names, value@);
            proof {
                assert(exists|i: int| 0 <= i < names.len() && names[i] == value@);
                if chosen != k {
                    if chosen < k {
                        assert(names[chosen] != value@);
                    } else {
                        assert(names[k as int] == value@);
                    }
                }
            }
            return k;
        }
        k = k + 1;
    }
    0
}

/// Two to the power `n`.
pub open spec fn two_to(n: nat) -> nat
    decreases n,
{
    if n == 0 {
        1
    } else {
        2 * two_to((n - 1) as nat)
    }
}

/// The transform sizes offered, smallest first: every power of two from 2
/// to [`crate::settings::MAX_FFT_SIZE`].
pub fn fft_sizes() -> (sizes: Vec<usize>)
    ensures
        sizes@.len() == 20,
        forall|i: int| 0 <= i < 20 ==> #[trigger] sizes@[i] == two_to((i + 1) as nat),
        sizes@[19] == crate::settings::MAX_FFT_SIZE,
{
    let mut sizes: Vec<usize> = Vec::new();
    let mut size: usize = 2;
    let mut k: usize = 0;
    proof {
        assert(two_to(0) == 1);
        assert(two_to(1) == 2);
        lemma_two_to_twenty();
        lemma_two_to_grows(1, 20);
    }
    while k < 20
        invariant
            k <= 20,
            sizes@.len() == k,
            forall|i: int| 0 <= i < k ==> #[trigger] sizes@[i] == two_to((i + 1) as nat),
            k < 20 ==> size == two_to((k + 1) as nat),
            k < 20 ==> two_to((k + 1) as nat) <= 1048576,
        decreases 20 - k,
    {
        proof {
            lemma_two_to_twenty();
            if k + 1 < 20 {
                lemma_two_to_grows((k + 2) as nat, 20);
            }
        }
        sizes.push(size);
        if k < 19 {
            size = size * 2;
        }
        k = k + 1;
    }
    proof {
        lemma_two_to_twenty();
    }
    sizes
}

proof fn lemma_two_to_twenty()
    ensures
        two_to(20) == 1048576,
{
    reveal_with_fuel(two_to, 21);
}

proof fn lemma_two_to_grows(a: nat, b: nat)
    requires
        a <= b,
    ensures
        two_to(a) <= two_to(b),
    decreases b,
{
    if a < b {
        lemma_two_to_grows(a, (b - 1) as nat);
    }
}

/// Tabbing forward then back returns to the control started from, unless
/// the first step passed over the range field, which the way back passes
/// over too.
pub proof fn lemma_tab_round_trip(active: Control, range_fixed: bool)
    requires
        active != Control::Range || range_fixed,
    ensures
        ({
            let forward = if after(active, 1) != Control::Range || range_fixed { after(active, 1) } else { after(active, 2) };
            let back = if after(forward, 7) != Control::Range || range_fixed { after(forward, 7) } else { after(forward, 14) };
            back == active
        }),
{
}

/// What the form does next, once a control has been activated from the
/// keyboard.
#[derive(Debug, Clone, Copy, PartialEq, Eq, Structural)]
pub enum Activation {
    /// Nothing beyond drawing again.
    Nothing,
    /// Take option `index` of `choice`'s list.
    Select(Choice, usize),
    /// Apply what was typed into the number fields.
    Commit,
    /// Go back to the configured settings.
    Reset,
}

/// The state of the settings form apart from the settings themselves: which
/// control has the focus, which option list is open and which of its
/// options is highlighted, the text of the two number fields, whether the
/// next keystroke replaces a field's text, and the held step buttons.
pub struct Form {
    pub active: Control,
    pub expanded: Option<Choice>,
    pub highlighted: usize,
    /// The next typed character replaces the field rather than extending it.
    pub replace_number: bool,
    pub overlap: String,
    pub range: String,
    pub closed: bool,
    pub repeating: bool,
    /// Bumped whenever a held step button is let go, so that a repeat timer
    /// from before knows it is stale.
    pub repeat_generation: u64,
}

/// `a` and `b` agree on everything but the focus, the open list and the
/// highlighted option.
pub open spec fn same_fields(a: Form, b: Form) -> bool {
    &&& a.replace_number == b.replace_number
    &&& a.overlap@ == b.overlap@
    &&& a.range@ == b.range@
    &&& a.closed == b.closed
    &&& a.repeating == b.repeating
    &&& a.repeat_generation == b.repeat_generation
}

/// `a` and `b` agree on everything but the text of the number fields and
/// whether the next keystroke replaces it.
pub open spec fn same_focus(a: Form, b: Form) -> bool {
    &&& a.active == b.active
    &&& a.expanded == b.expanded
    &&& a.highlighted == b.highlighted
    &&& a.closed == b.closed
    &&& a.repeating == b.repeating
    &&& a.repeat_generation == b.repeat_generation
}

/// A field's text after typing `text` into it.
pub open spec fn typed(old: Seq<char>, replace: bool, text: Seq<char>) -> Seq<char> {
    if replace {
        text
    } else {
        old + text
    }
}

/// A field's text after a backspace, or after delete with `clear`.
pub open spec fn erased(old: Seq<char>, replace: bool, clear: bool) -> Seq<char> {
    if clear || replace || old.len() == 0 {
        Seq::empty()
    } else {
        old.drop_last()
    }
}

/// Whether a typed field takes input: the range only where it is fixed.
pub open spec fn takes_input(active: Control, range_fixed: bool) -> bool {
    active == Control::Overlap || (active == Control::Range && range_fixed)
}

impl Form {
    /// A form opened on the transform size, with `highlighted` the index of
    /// the current size in its list.
    pub fn new(overlap: String, range: String, highlighted: usize) -> (form: Self)
        ensures
            form.active == Control::Fft,
            form.expanded is None,
            form.highlighted == highlighted,
            !form.replace_number,
            form.overlap@ == overlap@,
            form.range@ == range@,
            !form.closed,
            !form.repeating,
            form.repeat_generation == 0,
    {
        Form {
            active: Control::Fft,
            expanded: None,
            highlighted,
            replace_number: false,
            overlap,
            range,
            closed: false,
            repeating: false,
            repeat_generation: 0,
        }
    }

    /// A control was clicked; `selected` is the index of its current value
    /// in its option list, where it has one. Clicking the control whose
    /// list is open closes the list; any other control with a list opens it
    /// at the current value. A typed field takes the focus ready to be
    /// replaced.
    pub fn activate(&mut self, control: Control, selected: usize)
        ensures
            final(self).active == control,
            final(self).replace_number == (control.number() is Some),
            ({
                let collapse = old(self).active == control && old(self).expanded == control.choice();
                if control.choice() is Some && !collapse {
                    final(self).expanded == control.choice() && final(self).highlighted == selected
                } else {
                    final(self).expanded is None && final(self).highlighted == old(self).highlighted
                }
            }),
            final(self).overlap@ == old(self).overlap@,
            final(self).range@ == old(self).range@,
            final(self).closed == old(self).closed,
            final(self).repeating == old(self).repeating,
            final(self).repeat_generation == old(self).repeat_generation,
    {
        let choice = control.choice();
        let collapse = self.active == control && self.expanded == choice;
        self.active = control;
        self.replace_number = control.number().is_some();
        self.expanded = None;
        if let Some(c) = choice {
            if !collapse {
                self.highlighted = selected;
                self.expanded = Some(c);
            }
        }
    }

    /// Tab or shift-tab: the next control, closing any open list; a typed
    /// field takes the focus ready to be replaced.
    pub fn move_control(&mut self, forward: bool, range_fixed: bool)
        ensures
            ({
                let step = if forward { 1int } else { 7int };
                let first = after(old(self).active, step);
                final(self).active == if first != Control::Range || range_fixed {
                    first
                } else {
                    after(old(self).active, 2 * step)
                }
            }),
            final(self).expanded is None,
            final(self).highlighted == old(self).highlighted,
            final(self).replace_number == (final(self).active.number() is Some),
            final(self).overlap@ == old(self).overlap@,
            final(self).range@ == old(self).range@,
            final(self).closed == old(self).closed,
            final(self).repeating == old(self).repeating,
            final(self).repeat_generation == old(self).repeat_generation,
    {
        self.active = next_control(self.active, forward, range_fixed);
        self.expanded = None;
        self.replace_number = self.active.number().is_some();
    }

    /// Up or down. On a control with a list of `count` options, open the
    /// list at `selected` (the current value), or move the highlight through
    /// the open one, wrapping. On a typed field, answer the field to step.
    pub fn move_option(&mut self, forward: bool, count: usize, selected: usize) -> (step: Option<Number>)
        requires
            old(self).active.choice() is Some && old(self).expanded is Some ==> count > 0 && (
            forward ==> old(self).highlighted + 1 <= usize::MAX) && (!forward
                ==> old(self).highlighted + count <= usize::MAX),
        ensures
            old(self).active.choice() is None ==> step == old(self).active.number() && *final(self)
                == *old(self),
            old(self).active.choice() is Some ==> step is None && final(self).active == old(
                self,
            ).active && same_fields(*final(self), *old(self)) && if old(self).expanded is None {
                final(self).expanded == old(self).active.choice() && final(self).highlighted
                    == selected
            } else {
                final(self).expanded == old(self).expanded && final(self).highlighted == (if forward {
                    (old(self).highlighted + 1) % (count as int)
                } else {
                    (old(self).highlighted + count - 1) % (count as int)
                })
            },
    {
        let Some(choice) = self.active.choice() else {
            return self.active.number();
        };
        if self.expanded.is_none() {
            self.expanded = Some(choice);
            self.highlighted = selected;
        } else if forward {
            self.highlighted = (self.highlighted + 1) % count;
        } else {
            self.highlighted = (self.highlighted + count - 1) % count;
        }
        None
    }

    /// Home or End in the open list of `count` options.
    pub fn edge_option(&mut self, last: bool, count: usize)
        requires
            old(self).expanded is Some && last ==> count > 0,
        ensures
            old(self).expanded is None ==> *final(self) == *old(self),
            old(self).expanded is Some ==> final(self).highlighted == (if last {
                count - 1
            } else {
                0
            }) && final(self).active == old(self).active && final(self).expanded == old(
                self,
            ).expanded && same_fields(*final(self), *old(self)),
    {
        if self.expanded.is_none() {
            return;
        }
        self.highlighted = if last {
            count - 1
        } else {
            0
        };
    }

    /// Space or Enter on the focused control: take the highlighted option
    /// of its open list, or open the list at `selected`; apply typed
    /// numbers, leaving the field ready to be replaced; or reset.
    pub fn activate_current(&mut self, selected: usize) -> (activation: Activation)
        ensures
            final(self).active == old(self).active,
            match old(self).active.choice() {
                Some(choice) => if old(self).expanded == Some(choice) {
                    activation == Activation::Select(choice, old(self).highlighted) && *final(self)
                        == *old(self)
                } else {
                    activation == Activation::Nothing && final(self).expanded == Some(choice)
                        && final(self).highlighted == selected && same_fields(*final(self), *old(self))
                },
                None => match old(self).active {
                    Control::Overlap | Control::Range => activation == Activation::Commit
                        && final(self).replace_number && final(self).expanded == old(self).expanded
                        && final(self).highlighted == old(self).highlighted && final(self).overlap@
                        == old(self).overlap@ && final(self).range@ == old(self).range@
                        && final(self).closed == old(self).closed && final(self).repeating == old(
                        self,
                    ).repeating && final(self).repeat_generation == old(self).repeat_generation,
                    _ => activation == Activation::Reset && *final(self) == *old(self),
                },
            },
    {
        if let Some(choice) = self.active.choice() {
            if self.expanded == Some(choice) {
                return Activation::Select(choice, self.highlighted);
            }
            self.expanded = Some(choice);
            self.highlighted = selected;
            return Activation::Nothing;
        }
        match self.active {
            Control::Overlap | Control::Range => {
                self.replace_number = true;
                Activation::Commit
            },
            _ => Activation::Reset,
        }
    }

    /// Type `text` into the focused number field: the range only where it
    /// is fixed. Answers whether anything was typed.
    pub fn edit_text(&mut self, text: &str, range_fixed: bool) -> (edited: bool)
        ensures
            edited == takes_input(old(self).active, range_fixed),
            !edited ==> *final(self) == *old(self),
            edited ==> same_focus(*final(self), *old(self)) && !final(self).replace_number && if old(
                self,
            ).active == Control::Overlap {
                final(self).overlap@ == typed(old(self).overlap@, old(self).replace_number, text@)
                    && final(self).range@ == old(self).range@
            } else {
                final(self).range@ == typed(old(self).range@, old(self).replace_number, text@)
                    && final(self).overlap@ == old(self).overlap@
            },
    {
        let overlap = match self.active {
            Control::Overlap => true,
            Control::Range => {
                if !range_fixed {
                    return false;
                }
                false
            },
            _ => return false,
        };
        let mut value = if self.replace_number {
            String::new()
        } else if overlap {
            string_from(&chars_of(self.overlap.as_str()))
        } else {
            string_from(&chars_of(self.range.as_str()))
        };
        push_str(&mut value, text);
        if overlap {
            self.overlap = value;
        } else {
            self.range = value;
        }
        self.replace_number = false;
        true
    }

    /// Backspace (or, with `clear`, Delete) in the focused number field.
    /// Answers whether a field was focused.
    pub fn erase(&mut self, clear: bool) -> (erased_any: bool)
        ensures
            erased_any == (old(self).active.number() is Some),
            !erased_any ==> *final(self) == *old(self),
            erased_any ==> same_focus(*final(self), *old(self)) && !final(self).replace_number && if old(
                self,
            ).active == Control::Overlap {
                final(self).overlap@ == erased(old(self).overlap@, old(self).replace_number, clear)
                    && final(self).range@ == old(self).range@
            } else {
                final(self).range@ == erased(old(self).range@, old(self).replace_number, clear)
                    && final(self).overlap@ == old(self).overlap@
            },
    {
        let overlap = match self.active {
            Control::Overlap => true,
            Control::Range => false,
            _ => return false,
        };
        let chars = if overlap {
            chars_of(self.overlap.as_str())
        } else {
            chars_of(self.range.as_str())
        };
        let value = if clear || self.replace_number || chars.len() == 0 {
            String::new()
        } else {
            string_of(&chars, 0, chars.len() - 1)
        };
        proof {
            if !(clear || self.replace_number || chars@.len() == 0) {
                assert(chars@.subrange(0, chars@.len() - 1) =~= chars@.drop_last());
            }
        }
        if overlap {
            self.overlap = value;
        } else {
            self.range = value;
        }
        self.replace_number = false;
        true
    }

    /// Paste: the clipboard's text, trimmed, replaces the focused field.
    pub fn paste(&mut self, text: &str, range_fixed: bool) -> (edited: bool)
        ensures
            edited == takes_input(old(self).active, range_fixed),
            !edited ==> same_focus(*final(self), *old(self)) && final(self).replace_number
                && final(self).overlap@ == old(self).overlap@ && final(self).range@ == old(
                self,
            ).range@,
            edited ==> same_focus(*final(self), *old(self)) && !final(self).replace_number && if old(
                self,
            ).active == Control::Overlap {
                final(self).overlap@ == trimmed(text@) && final(self).range@ == old(self).range@
            } else {
                final(self).range@ == trimmed(text@) && final(self).overlap@ == old(self).overlap@
            },
    {
        self.replace_number = true;
        let clean = string_from(&trim_chars(&chars_of(text)));
        self.edit_text(clean.as_str(), range_fixed)
    }

    /// A held step button was let go, or something else took over: any
    /// repeat timer still running is now stale.
    pub fn stop_repeat(&mut self)
        ensures
            !final(self).repeating,
            final(self).repeat_generation == (if old(self).repeat_generation == u64::MAX {
                0
            } else {
                old(self).repeat_generation + 1
            }),
            final(self).active == old(self).active,
            final(self).expanded == old(self).expanded,
            final(self).highlighted == old(self).highlighted,
            final(self).replace_number == old(self).replace_number,
            final(self).overlap@ == old(self).overlap@,
            final(self).range@ == old(self).range@,
            final(self).closed == old(self).closed,
    {
        self.repeating = false;
        self.repeat_generation = if self.repeat_generation == u64::MAX {
            0
        } else {
            self.repeat_generation + 1
        };
    }

    /// A step button of `control` is held down: it takes the focus, closes
    /// any open list, and starts a repeat. Answers the repeat's generation.
    pub fn begin_repeat(&mut self, control: Control) -> (generation: u64)
        ensures
            final(self).active == control,
            final(self).expanded is None,
            final(self).repeating,
            generation == final(self).repeat_generation,
            final(self).repeat_generation == (if old(self).repeat_generation == u64::MAX {
                0
            } else {
                old(self).repeat_generation + 1
            }),
            final(self).highlighted == old(self).highlighted,
            final(self).replace_number == old(self).replace_number,
            final(self).overlap@ == old(self).overlap@,
            final(self).range@ == old(self).range@,
            final(self).closed == old(self).closed,
    {
        self.active = control;
        self.expanded = None;
        self.stop_repeat();
        self.repeating = true;
        self.repeat_generation
    }

    /// Whether a repeat timer of `generation` should step again.
    pub fn repeat_due(&self, generation: u64) -> (due: bool)
        ensures
            due == (self.repeating && self.repeat_generation == generation),
    {
        self.repeating && self.repeat_generation == generation
    }

    /// Close the form, once: answers whether it was still open. Any repeat
    /// stops.
    pub fn close(&mut self) -> (closing: bool)
        ensures
            closing == !old(self).closed,
            final(self).closed,
            !closing ==> *final(self) == *old(self),
            closing ==> !final(self).repeating && final(self).repeat_generation == (if old(
                self,
            ).repeat_generation == u64::MAX {
                0
            } else {
                old(self).repeat_generation + 1
            }) && final(self).active == old(self).active && final(self).expanded == old(
                self,
            ).expanded && final(self).highlighted == old(self).highlighted
                && final(self).replace_number == old(self).replace_number && final(self).overlap@
                == old(self).overlap@ && final(self).range@ == old(self).range@,
    {
        if self.closed {
            return false;
        }
        self.stop_repeat();
        self.closed = true;
        true
    }
}

} // verus!
