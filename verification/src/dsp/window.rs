//! The window shapes of the analysis stages, by name.

use vstd::prelude::*;

use crate::text::{
    blank, chars_of, law_blanks_around_are_trimmed, law_case_does_not_matter_to_trimming, lower,
    lower_text, same, string_of, trim, trimmed,
};

verus! {

/// Window shapes supported by the analysis stages.
#[derive(Clone, Copy, Debug, PartialEq, Eq, Structural)]
pub enum WindowKind {
    /// No shaping at all.
    Rectangular,
    /// Raised cosine, the default: squared, it overlap-adds to a constant for
    /// hops of a quarter window and less.
    Hann,
    /// Slightly lower side lobes than Hann, at the cost of a small pedestal.
    Hamming,
    /// Strong side-lobe suppression for pitch analysis.
    Blackman,
}

impl Default for WindowKind {
    fn default() -> (kind: Self)
        ensures
            kind == WindowKind::Hann,
    {
        WindowKind::Hann
    }
}

impl WindowKind {
    /// The window's name.
    pub open spec fn spec_name(self) -> Seq<char> {
        match self {
            WindowKind::Rectangular => "rectangular"@,
            WindowKind::Hann => "hann"@,
            WindowKind::Hamming => "hamming"@,
            WindowKind::Blackman => "blackman"@,
        }
    }

    /// The window a name stands for, however it is spaced and capitalised.
    pub open spec fn spec_parse(name: Seq<char>) -> Option<WindowKind> {
        let plain = lower(trimmed(name));
        if plain == "rect"@ || plain == "rectangular"@ || plain == "none"@ {
            Some(WindowKind::Rectangular)
        } else if plain == "hann"@ || plain == "hanning"@ {
            Some(WindowKind::Hann)
        } else if plain == "hamming"@ {
            Some(WindowKind::Hamming)
        } else if plain == "blackman"@ {
            Some(WindowKind::Blackman)
        } else {
            None
        }
    }

    /// The window's name as used on the command line.
    pub fn name(self) -> (name: &'static str)
        ensures
            name@ == self.spec_name(),
    {
        match self {
            WindowKind::Rectangular => "rectangular",
            WindowKind::Hann => "hann",
            WindowKind::Hamming => "hamming",
            WindowKind::Blackman => "blackman",
        }
    }

    /// Parses a window name, accepting the spellings printed by
    /// [`WindowKind::name`].
    pub fn parse(name: &str) -> (kind: Option<Self>)
        ensures
            kind == WindowKind::spec_parse(name@),
    {
        let inner = trim(chars_of(name));
        let text = string_of(&lower_text(&inner));
        let plain = text.as_str();
        if same(plain, "rect") || same(plain, "rectangular") || same(plain, "none") {
            Some(WindowKind::Rectangular)
        } else if same(plain, "hann") || same(plain, "hanning") {
            Some(WindowKind::Hann)
        } else if same(plain, "hamming") {
            Some(WindowKind::Hamming)
        } else if same(plain, "blackman") {
            Some(WindowKind::Blackman)
        } else {
            None
        }
    }
}

/// A window's name is parsed as that window.
pub proof fn law_window_names_round_trip(kind: WindowKind)
    ensures
        WindowKind::spec_parse(kind.spec_name()) == Some(kind),
{
    reveal_strlit("rect");
    reveal_strlit("rectangular");
    reveal_strlit("none");
    reveal_strlit("hann");
    reveal_strlit("hanning");
    reveal_strlit("hamming");
    reveal_strlit("blackman");
    let name = kind.spec_name();
    assert(trimmed(name) == name);
    assert(lower(name) =~= name);
    assert(name[0] != 'n');
    assert("hamming"@[2] == 'm' && "hanning"@[2] == 'n');
    assert("hann"@.len() == 4 && "rect"@.len() == 4);
    assert("hann"@[0] == 'h' && "rect"@[0] == 'r' && "none"@[0] == 'n');
    assert("blackman"@.len() == 8 && "rectangular"@.len() == 11);
}

/// Neither case nor blanks around a name matter to which window it is.
pub proof fn law_case_and_blanks_do_not_matter_to_windows(
    before: Seq<char>,
    name: Seq<char>,
    after: Seq<char>,
    other: Seq<char>,
)
    requires
        blank(before),
        blank(after),
        lower(other) == lower(name),
    ensures
        WindowKind::spec_parse(before + name + after) == WindowKind::spec_parse(name),
        WindowKind::spec_parse(other) == WindowKind::spec_parse(name),
{
    law_blanks_around_are_trimmed(before, name, after);
    law_case_does_not_matter_to_trimming(name);
    law_case_does_not_matter_to_trimming(other);
}

} // verus!
