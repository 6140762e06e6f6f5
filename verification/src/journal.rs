//! The journal record: a full name together with up to three abbreviations,
//! kept in priority order (slot 1 is the preferred form).

use vstd::prelude::*;

verus! {

/// Mathematical model of a [`Journal`] record: the field views.
pub ghost struct JournalView {
    pub name: Seq<char>,
    pub abbr_1: Option<Seq<char>>,
    pub abbr_2: Option<Seq<char>>,
    pub abbr_3: Option<Seq<char>>,
}

/// One journal record: the canonical full name and up to three alternate
/// abbreviated forms. Any of the three slots may be absent; slot order is
/// priority order (slot 1 before slot 2 before slot 3).
#[derive(Debug)]
pub struct Journal {
    pub name: String,
    pub abbr_1: Option<String>,
    pub abbr_2: Option<String>,
    pub abbr_3: Option<String>,
}

/// The view of an optional string: the character sequence, if present.
pub open spec fn opt_view(o: Option<String>) -> Option<Seq<char>> {
    match o {
        Some(s) => Some(s@),
        None => None,
    }
}

impl View for Journal {
    type V = JournalView;

    open spec fn view(&self) -> JournalView {
        JournalView {
            name: self.name@,
            abbr_1: opt_view(self.abbr_1),
            abbr_2: opt_view(self.abbr_2),
            abbr_3: opt_view(self.abbr_3),
        }
    }
}

impl DeepView for Journal {
    type V = JournalView;

    open spec fn deep_view(&self) -> JournalView {
        self.view()
    }
}

impl JournalView {
    /// Record invariant: the full name is non-empty and every abbreviation
    /// that is present is non-empty.
    pub open spec fn wf(self) -> bool {
        &&& self.name.len() > 0
        &&& (self.abbr_1 matches Some(a) ==> a.len() > 0)
        &&& (self.abbr_2 matches Some(a) ==> a.len() > 0)
        &&& (self.abbr_3 matches Some(a) ==> a.len() > 0)
    }

    /// The record's preferred abbreviation: the first present slot, in slot
    /// order 1, 2, 3; `None` when the record has no abbreviations at all.
    pub open spec fn first_abbr(self) -> Option<Seq<char>> {
        if self.abbr_1 is Some {
            self.abbr_1
        } else if self.abbr_2 is Some {
            self.abbr_2
        } else {
            self.abbr_3
        }
    }

}

impl Journal {
    /// Record invariant, stated on the model.
    pub open spec fn wf(&self) -> bool {
        self@.wf()
    }

    /// An exact copy of the record.
    pub fn duplicate(&self) -> (r: Journal)
        ensures
            r@ == self@,
    {
        Journal {
            name: self.name.clone(),
            abbr_1: clone_opt(&self.abbr_1),
            abbr_2: clone_opt(&self.abbr_2),
            abbr_3: clone_opt(&self.abbr_3),
        }
    }
}

/// An exact copy of an optional string.
fn clone_opt(o: &Option<String>) -> (r: Option<String>)
    ensures
        opt_view(r) == opt_view(*o),
{
    match o {
        Some(s) => Some(s.clone()),
        None => None,
    }
}

} // verus!
