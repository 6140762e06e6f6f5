//! Resolution of academic journal names to their standard abbreviations and
//! back.
//!
//! The crate covers the whole pipeline: parsing comma-separated source texts
//! into records ([`reader`]), merging sources under a precedence order
//! ([`merge`]), encoding the merged dataset into a compact binary payload and
//! decoding it again ([`codec`]), building the two lookup indexes from the
//! decoded dataset ([`index`]), and answering exact-match queries against
//! them (this module). Queries are case-sensitive and unnormalized; an
//! unknown key is an ordinary `None`, never an error.

pub mod cli;
pub mod codec;
pub mod error;
pub mod index;
pub mod journal;
pub mod merge;
pub mod reader;
pub mod strmap;
pub mod text;

use vstd::prelude::*;

verus! {

use crate::cli::Cli;
use crate::index::Indexes;
use crate::journal::{JournalView, opt_view};

/// What a full-name query answers: the preferred abbreviation of the record
/// the index maps the name to — the first present slot, in slot order — or
/// `None` when the name is unknown or the record has no abbreviations.
pub open spec fn abbreviation_answer(
    m: Map<Seq<char>, JournalView>,
    full_name: Seq<char>,
) -> Option<Seq<char>> {
    if m.contains_key(full_name) {
        m[full_name].first_abbr()
    } else {
        None
    }
}

/// What an abbreviation query answers: the full name the index maps the
/// abbreviation to, or `None` when it is unknown.
pub open spec fn full_name_answer(
    m: Map<Seq<char>, Seq<char>>,
    abbreviation: Seq<char>,
) -> Option<Seq<char>> {
    if m.contains_key(abbreviation) {
        Some(m[abbreviation])
    } else {
        None
    }
}

/// The first available abbreviation for the given journal full name: the
/// indexed record's first present slot, in slot order 1, 2, 3. `None` when
/// the name is not indexed or its record has no abbreviations.
pub fn get_abbreviation(idx: &Indexes, full_name: &str) -> (r: Option<String>)
    requires
        idx.wf(),
    ensures
        opt_view(r) == abbreviation_answer(idx.name_map(), full_name@),
{
    match idx.names.get(full_name) {
        None => None,
        Some(j) => {
            proof {
                assert(j@ == idx.name_map()[full_name@]);
            }
            match &j.abbr_1 {
                Some(a) => Some(a.clone()),
                None => match &j.abbr_2 {
                    Some(a) => Some(a.clone()),
                    None => match &j.abbr_3 {
                        Some(a) => Some(a.clone()),
                        None => None,
                    },
                },
            }
        },
    }
}

/// The full name for the given journal abbreviation, or `None` when the
/// abbreviation is not indexed.
pub fn get_full_name(idx: &Indexes, abbreviation: &str) -> (r: Option<String>)
    requires
        idx.wf(),
    ensures
        opt_view(r) == full_name_answer(idx.abbrev_map(), abbreviation@),
{
    match idx.abbrevs.get(abbreviation) {
        None => None,
        Some(s) => Some(s.clone()),
    }
}

/// Answers one command-line query against the indexes: the abbreviation of
/// the input when the flag asks for one, the full name of the input
/// otherwise.
pub fn resolve(cli: &Cli, idx: &Indexes) -> (r: Option<String>)
    requires
        idx.wf(),
    ensures
        cli.abbreviation ==> opt_view(r) == abbreviation_answer(idx.name_map(), cli.input@),
        !cli.abbreviation ==> opt_view(r) == full_name_answer(idx.abbrev_map(), cli.input@),
{
    if cli.abbreviation {
        get_abbreviation(idx, cli.input.as_str())
    } else {
        get_full_name(idx, cli.input.as_str())
    }
}

/// Precedence: when a record is the last in the dataset to carry its name,
/// a full-name query answers with that record's preferred abbreviation —
/// later sources overwrite earlier ones, last write wins.
pub proof fn lemma_precedence_last_record_wins(ds: Seq<JournalView>, i: int)
    requires
        0 <= i < ds.len(),
        forall|j: int| i < j < ds.len() ==> (#[trigger] ds[j]).name != ds[i].name,
    ensures
        abbreviation_answer(crate::index::name_index_of(ds), ds[i].name) == ds[i].first_abbr(),
{
    crate::index::lemma_name_index_last_wins(ds, i);
}

/// Slot order: a record whose first slot is absent answers with its second
/// slot's abbreviation when that slot is present.
pub proof fn lemma_slot_order_skips_absent_slot(
    m: Map<Seq<char>, JournalView>,
    full_name: Seq<char>,
    a: Seq<char>,
)
    requires
        m.contains_key(full_name),
        m[full_name].abbr_1 is None,
        m[full_name].abbr_2 == Some(a),
    ensures
        abbreviation_answer(m, full_name) == Some(a),
{
}

/// Unknown key: a full name no record carries, or an abbreviation no record
/// carries in any slot, answers `None` — absence is a normal result, not an
/// error.
pub proof fn lemma_unknown_key_answers_none(ds: Seq<JournalView>, key: Seq<char>)
    requires
        forall|i: int| 0 <= i < ds.len() ==> (#[trigger] ds[i]).name != key,
        forall|i: int| 0 <= i < ds.len() ==> !crate::index::has_abbr(#[trigger] ds[i], key),
    ensures
        abbreviation_answer(crate::index::name_index_of(ds), key) is None,
        full_name_answer(crate::index::abbrev_index_of(ds), key) is None,
{
    crate::index::lemma_name_index_domain(ds, key);
    crate::index::lemma_abbrev_index_domain(ds, key);
}

} // verus!
