use vstd::prelude::*;
use vstd::string::{StrSliceExecFns, StringExecFns};
use crate::specialists::{SpecialistDefinition, SpecialistId, specialist_definition, bonus_table, is_built_in_definition};
use crate::text::{decimal, push_decimal};

verus! {

/// Text cut to at most `maximum` characters; a cut text longer than three
/// characters ends in three dots.
pub open spec fn truncated(text: Seq<char>, maximum: nat) -> Seq<char> {
    if text.len() <= maximum {
        text
    } else if maximum <= 3 {
        text.take(maximum as int)
    } else {
        text.take(maximum - 3) + "..."@
    }
}

pub fn truncate(text: &str, maximum_characters: usize) -> (output: String)
    ensures
        output@ == truncated(text@, maximum_characters as nat),
{
    let length = text.unicode_len();
    if length <= maximum_characters {
        return String::from_str(text);
    }
    if maximum_characters <= 3 {
        let prefix = text.substring_char(0, maximum_characters);
        let output = String::from_str(prefix);
        assert(output@ =~= text@.take(maximum_characters as int));
        return output;
    }
    let prefix = text.substring_char(0, maximum_characters - 3);
    let mut output = String::from_str(prefix);
    output.append("...");
    assert(output@ =~= text@.take(maximum_characters - 3) + "..."@);
    output
}

/// The magnitude of a depth in decimetres.
pub open spec fn depth_magnitude(value: i32) -> nat {
    if value >= 0 {
        value as nat
    } else {
        (-value) as nat
    }
}

/// "DEPTH", a sign, the metres and one decimal place, then "M".
pub open spec fn depth_text(depth_decimetres: i32) -> Seq<char> {
    let sign = if depth_decimetres >= 0 { '+' } else { '-' };
    "DEPTH "@ + seq![sign] + decimal(depth_magnitude(depth_decimetres) / 10) + "."@ + decimal(
        depth_magnitude(depth_decimetres) % 10,
    ) + "M"@
}

pub fn format_depth(depth_decimetres: i32) -> (text: String)
    ensures
        text@ == depth_text(depth_decimetres),
{
    let magnitude: u32 = if depth_decimetres >= 0 {
        depth_decimetres as u32
    } else {
        (-(depth_decimetres + 1)) as u32 + 1
    };
    let mut text = String::from_str("DEPTH ");
    let sign: &str = if depth_decimetres >= 0 { "+" } else { "-" };
    proof {
        reveal_strlit("+");
        reveal_strlit("-");
    }
    text.append(sign);
    push_decimal(&mut text, (magnitude / 10) as u64);
    text.append(".");
    push_decimal(&mut text, (magnitude % 10) as u64);
    text.append("M");
    proof {
        assert(magnitude == depth_magnitude(depth_decimetres));
        assert(text@ =~= depth_text(depth_decimetres));
    }
    text
}

/// The delivery readout: queue length and seconds to the next drop.
pub open spec fn delivery_eta_text(seconds: u32, count: usize) -> Seq<char> {
    "QUEUE "@ + decimal(count as nat) + "   NEXT DROP "@ + decimal(seconds as nat) + "S"@
}

pub fn format_delivery_eta(seconds: u32, count: usize) -> (text: String)
    ensures
        text@ == delivery_eta_text(seconds, count),
{
    let mut text = String::from_str("QUEUE ");
    push_decimal(&mut text, count as u64);
    text.append("   NEXT DROP ");
    push_decimal(&mut text, seconds as u64);
    text.append("S");
    assert(text@ =~= delivery_eta_text(seconds, count));
    text
}

/// A bar's current value and its maximum.
#[derive(Clone, Copy, Debug, Default, PartialEq, Eq, Structural)]
pub struct MeterValue {
    pub current: u16,
    pub maximum: u16,
}

impl MeterValue {
    pub fn new(current: u16, maximum: u16) -> (value: Self)
        ensures
            value == (MeterValue { current, maximum }),
    {
        MeterValue { current, maximum }
    }
}

/// What the heads-up display shows: health and energy bars, money, depth
/// below the surface, and the next delivery with how many are on the way.
#[derive(Clone, Copy, Debug, Default, PartialEq, Eq, Structural)]
pub struct HudSnapshot {
    pub health: MeterValue,
    pub energy: MeterValue,
    pub money: u64,
    pub depth_decimetres: i32,
    pub delivery_seconds: Option<u32>,
    pub delivery_count: usize,
}

/// What a click in the specialist window asks for.
#[derive(Clone, Copy, Debug, PartialEq, Eq, Structural)]
pub enum SpecialistAction {
    Close,
    OpenDetails,
}

/// The two pages of the specialist window.
#[derive(Clone, Copy, Debug, Default, PartialEq, Eq, Structural)]
pub enum SpecialistPage {
    #[default]
    Conversation,
    Details,
}

/// Which specialist's window is open, and on which page.
#[derive(Clone, Copy, Debug, Default, PartialEq, Eq, Structural)]
pub struct SpecialistGui {
    specialist: Option<SpecialistId>,
    page: SpecialistPage,
}

impl SpecialistGui {
    pub closed spec fn spec_specialist(&self) -> Option<SpecialistId> {
        self.specialist
    }

    pub closed spec fn spec_page(&self) -> SpecialistPage {
        self.page
    }

    /// A closed window.
    pub fn new() -> (gui: Self)
        ensures
            gui.spec_specialist() is None,
            gui.spec_page() == SpecialistPage::Conversation,
    {
        SpecialistGui { specialist: None, page: SpecialistPage::Conversation }
    }

    pub fn is_open(&self) -> (open: bool)
        ensures
            open == self.spec_specialist() is Some,
    {
        self.specialist.is_some()
    }

    pub fn specialist(&self) -> (specialist: Option<SpecialistId>)
        ensures
            specialist == self.spec_specialist(),
    {
        self.specialist
    }

    pub fn page(&self) -> (page: SpecialistPage)
        ensures
            page == self.spec_page(),
    {
        self.page
    }

    /// Opens the conversation with a specialist.
    pub fn show(&mut self, specialist: SpecialistId)
        ensures
            final(self).spec_specialist() == Some(specialist),
            final(self).spec_page() == SpecialistPage::Conversation,
    {
        self.specialist = Some(specialist);
        self.page = SpecialistPage::Conversation;
    }

    /// Closes the window; the page is kept.
    pub fn dismiss(&mut self)
        ensures
            final(self).spec_specialist() is None,
            final(self).spec_page() == old(self).spec_page(),
    {
        self.specialist = None;
    }

    /// Switches to the bonus details page.
    pub fn open_details(&mut self)
        ensures
            final(self).spec_specialist() == old(self).spec_specialist(),
            final(self).spec_page() == SpecialistPage::Details,
    {
        self.page = SpecialistPage::Details;
    }

    /// Returns from the details page to the conversation.
    pub fn back(&mut self)
        ensures
            final(self).spec_specialist() == old(self).spec_specialist(),
            final(self).spec_page() == SpecialistPage::Conversation,
    {
        self.page = SpecialistPage::Conversation;
    }

    /// The definition of the shown specialist, if any is shown and known.
    pub fn definition(&self) -> (definition: Option<SpecialistDefinition>)
        ensures
            definition is Some == (self.spec_specialist() matches Some(id) && bonus_table(id.spec_raw()) is Some),
            definition matches Some(d) ==> Some(d.id) == self.spec_specialist() && is_built_in_definition(d),
    {
        match self.specialist {
            Some(id) => specialist_definition(id),
            None => None,
        }
    }
}

} // verus!
