//! Font styles: a small set of attributes for styled text.

use std::cmp::Ordering;
use vstd::laws_cmp::obeys_partial_cmp_spec_properties;
use vstd::laws_eq::{obeys_concrete_eq, obeys_eq_spec_properties};
use vstd::prelude::*;
use vstd::std_specs::cmp::{PartialEqSpecImpl, PartialOrdSpecImpl};

verus! {

/// A font style. The styles are ordered as they are listed.
#[derive(Copy, Clone, Debug, Eq, Ord, Hash)]
pub enum FontStyle {
    Bold,
    Italic,
    Underline,
}

impl FontStyle {
    /// The place of the style in the order of the styles.
    pub open spec fn rank(self) -> int {
        match self {
            FontStyle::Bold => 1,
            FontStyle::Italic => 2,
            FontStyle::Underline => 3,
        }
    }

    /// The place of the style in the order of the styles.
    pub fn place(&self) -> (r: u8)
        ensures
            r == self.rank(),
    {
        match self {
            FontStyle::Bold => 1,
            FontStyle::Italic => 2,
            FontStyle::Underline => 3,
        }
    }

    /// The name of the HTML element that renders the style.
    pub fn tag_name(&self) -> (name: &'static str)
        ensures
            name@ == match *self {
                FontStyle::Bold => "strong"@,
                FontStyle::Italic => "em"@,
                FontStyle::Underline => "u"@,
            },
    {
        match self {
            FontStyle::Bold => "strong",
            FontStyle::Italic => "em",
            FontStyle::Underline => "u",
        }
    }
}

impl PartialEq for FontStyle {
    fn eq(&self, other: &Self) -> (r: bool) {
        self.place() == other.place()
    }
}

impl PartialEqSpecImpl for FontStyle {
    open spec fn obeys_eq_spec() -> bool {
        true
    }

    open spec fn eq_spec(&self, other: &Self) -> bool {
        self.rank() == other.rank()
    }
}

impl PartialOrd for FontStyle {
    fn partial_cmp(&self, other: &Self) -> (r: Option<Ordering>) {
        let a = self.place();
        let b = other.place();
        if a < b {
            Some(Ordering::Less)
        } else if a == b {
            Some(Ordering::Equal)
        } else {
            Some(Ordering::Greater)
        }
    }
}

impl PartialOrdSpecImpl for FontStyle {
    open spec fn obeys_partial_cmp_spec() -> bool {
        true
    }

    open spec fn partial_cmp_spec(&self, other: &Self) -> Option<Ordering> {
        if self.rank() < other.rank() {
            Some(Ordering::Less)
        } else if self.rank() == other.rank() {
            Some(Ordering::Equal)
        } else {
            Some(Ordering::Greater)
        }
    }
}

/// `==` on font styles decides equality, and `<` orders them by rank.
pub proof fn lemma_font_style_laws()
    ensures
        obeys_concrete_eq::<FontStyle>(),
        obeys_partial_cmp_spec_properties::<FontStyle>(),
{
    reveal(obeys_concrete_eq);
    reveal(obeys_partial_cmp_spec_properties);
    reveal(obeys_eq_spec_properties);
}

} // verus!
