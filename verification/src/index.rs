//! The index builder: from a decoded dataset it derives the two immutable
//! lookup indexes. Records are inserted in dataset order and a later record
//! overwrites an earlier one on a key collision, so the precedence order
//! chosen at merge time decides which source wins a tie.

use vstd::prelude::*;

verus! {

use crate::journal::{Journal, JournalView};
use crate::strmap::StrMap;

/// The full-name index of a dataset: every record inserted in order under
/// its name, last write wins.
pub open spec fn name_index_of(ds: Seq<JournalView>) -> Map<Seq<char>, JournalView>
    decreases ds.len(),
{
    if ds.len() == 0 {
        Map::empty()
    } else {
        name_index_of(ds.drop_last()).insert(ds.last().name, ds.last())
    }
}

/// One abbreviation slot's contribution to the abbreviation index: when
/// present, the abbreviation is mapped to the record's name.
pub open spec fn abbrev_entry(
    m: Map<Seq<char>, Seq<char>>,
    slot: Option<Seq<char>>,
    name: Seq<char>,
) -> Map<Seq<char>, Seq<char>> {
    match slot {
        Some(a) => m.insert(a, name),
        None => m,
    }
}

/// One record's contribution to the abbreviation index: every present slot
/// inserted in slot order 1, 2, 3.
pub open spec fn abbrev_entries(m: Map<Seq<char>, Seq<char>>, j: JournalView) -> Map<
    Seq<char>,
    Seq<char>,
> {
    abbrev_entry(abbrev_entry(abbrev_entry(m, j.abbr_1, j.name), j.abbr_2, j.name), j.abbr_3, j.name)
}

/// The abbreviation index of a dataset: for every record in order, every
/// present abbreviation mapped to the record's name, last write wins.
pub open spec fn abbrev_index_of(ds: Seq<JournalView>) -> Map<Seq<char>, Seq<char>>
    decreases ds.len(),
{
    if ds.len() == 0 {
        Map::empty()
    } else {
        abbrev_entries(abbrev_index_of(ds.drop_last()), ds.last())
    }
}

/// The two indexes, built once from a dataset and immutable afterwards.
pub struct Indexes {
    pub names: StrMap<Journal>,
    pub abbrevs: StrMap<String>,
}

impl Indexes {
    /// Internal invariant of both indexes.
    pub open spec fn wf(&self) -> bool {
        &&& self.names.wf()
        &&& self.abbrevs.wf()
    }

    /// The full-name index held.
    pub open spec fn name_map(&self) -> Map<Seq<char>, JournalView> {
        self.names.as_map()
    }

    /// The abbreviation index held.
    pub open spec fn abbrev_map(&self) -> Map<Seq<char>, Seq<char>> {
        self.abbrevs.as_map()
    }
}

/// Builds the two indexes from the dataset: exactly the maps that inserting
/// every record in dataset order yields.
pub fn build_indexes(ds: &Vec<Journal>) -> (r: Indexes)
    ensures
        r.wf(),
        r.name_map() == name_index_of(ds.deep_view()),
        r.abbrev_map() == abbrev_index_of(ds.deep_view()),
{
    let ghost dv = ds.deep_view();
    let mut names: StrMap<Journal> = StrMap::new();
    let mut abbrevs: StrMap<String> = StrMap::new();
    let n: usize = ds.len();
    let mut k: usize = 0;
    while k < n
        invariant
            n == ds@.len(),
            ds.deep_view() == dv,
            k <= n,
            names.wf(),
            abbrevs.wf(),
            names.as_map() == name_index_of(dv.take(k as int)),
            abbrevs.as_map() == abbrev_index_of(dv.take(k as int)),
        decreases n - k,
    {
        let ghost jv = dv[k as int];
        proof {
            assert(ds@[k as int].deep_view() == jv);
            assert(dv.take(k + 1).drop_last() =~= dv.take(k as int));
            assert(dv.take(k + 1).last() == jv);
        }
        let j = &ds[k];
        names.insert(j.name.clone(), j.duplicate());
        match &j.abbr_1 {
            Some(a) => { abbrevs.insert(a.clone(), j.name.clone()) },
            None => {},
        }
        match &j.abbr_2 {
            Some(a) => { abbrevs.insert(a.clone(), j.name.clone()) },
            None => {},
        }
        match &j.abbr_3 {
            Some(a) => { abbrevs.insert(a.clone(), j.name.clone()) },
            None => {},
        }
        k = k + 1;
        proof {
            assert(names.as_map() == name_index_of(dv.take(k as int)));
            assert(abbrevs.as_map() == abbrev_index_of(dv.take(k as int)));
        }
    }
    proof {
        assert(dv.take(n as int) =~= dv);
    }
    Indexes { names, abbrevs }
}

/// Building the indexes twice from the same dataset yields indexes with
/// identical key sets and identical mapped values: the index maps are a
/// function of the dataset alone.
pub proof fn lemma_index_build_idempotent(
    ds: Seq<JournalView>,
    n1: Map<Seq<char>, JournalView>,
    n2: Map<Seq<char>, JournalView>,
    a1: Map<Seq<char>, Seq<char>>,
    a2: Map<Seq<char>, Seq<char>>,
)
    requires
        n1 == name_index_of(ds),
        n2 == name_index_of(ds),
        a1 == abbrev_index_of(ds),
        a2 == abbrev_index_of(ds),
    ensures
        n1.dom() == n2.dom(),
        forall|k: Seq<char>| n1.dom().contains(k) ==> n1[k] == n2[k],
        a1.dom() == a2.dom(),
        forall|k: Seq<char>| a1.dom().contains(k) ==> a1[k] == a2[k],
{
}

/// Last write wins in the full-name index: the record the index maps a name
/// to is the last record in the dataset carrying that name.
pub proof fn lemma_name_index_last_wins(ds: Seq<JournalView>, i: int)
    requires
        0 <= i < ds.len(),
        forall|j: int| i < j < ds.len() ==> (#[trigger] ds[j]).name != ds[i].name,
    ensures
        name_index_of(ds).contains_key(ds[i].name),
        name_index_of(ds)[ds[i].name] == ds[i],
    decreases ds.len(),
{
    if i == ds.len() - 1 {
    } else {
        assert(ds.last() == ds[ds.len() - 1]);
        assert(ds.last().name != ds[i].name);
        assert forall|j: int| i < j < ds.drop_last().len() implies (#[trigger] ds.drop_last()[
            j
        ]).name != ds.drop_last()[i].name by {
            assert(ds.drop_last()[j] == ds[j]);
        }
        lemma_name_index_last_wins(ds.drop_last(), i);
        assert(ds.drop_last()[i] == ds[i]);
    }
}

/// A name is in the full-name index exactly when some record carries it.
pub proof fn lemma_name_index_domain(ds: Seq<JournalView>, k: Seq<char>)
    ensures
        name_index_of(ds).contains_key(k) <==> exists|i: int|
            0 <= i < ds.len() && (#[trigger] ds[i]).name == k,
    decreases ds.len(),
{
    if ds.len() == 0 {
    } else {
        lemma_name_index_domain(ds.drop_last(), k);
        if ds.last().name == k {
            assert(ds[ds.len() - 1].name == k);
        } else if name_index_of(ds).contains_key(k) {
            let i = choose|i: int|
                0 <= i < ds.drop_last().len() && (#[trigger] ds.drop_last()[i]).name == k;
            assert(ds[i].name == k);
        } else {
            assert forall|i: int| 0 <= i < ds.len() implies (#[trigger] ds[i]).name != k by {
                if i < ds.len() - 1 {
                    assert(ds.drop_last()[i] == ds[i]);
                }
            }
        }
    }
}

/// Whether a record carries an abbreviation in any slot.
pub open spec fn has_abbr(j: JournalView, a: Seq<char>) -> bool {
    j.abbr_1 == Some(a) || j.abbr_2 == Some(a) || j.abbr_3 == Some(a)
}

/// An abbreviation is in the abbreviation index exactly when some record
/// carries it in one of its slots.
pub proof fn lemma_abbrev_index_domain(ds: Seq<JournalView>, a: Seq<char>)
    ensures
        abbrev_index_of(ds).contains_key(a) <==> exists|i: int|
            0 <= i < ds.len() && has_abbr(#[trigger] ds[i], a),
    decreases ds.len(),
{
    if ds.len() == 0 {
    } else {
        lemma_abbrev_index_domain(ds.drop_last(), a);
        if has_abbr(ds.last(), a) {
            assert(has_abbr(ds[ds.len() - 1], a));
            assert(abbrev_index_of(ds).contains_key(a));
        } else if abbrev_index_of(ds).contains_key(a) {
            assert(abbrev_index_of(ds.drop_last()).contains_key(a));
            let i = choose|i: int|
                0 <= i < ds.drop_last().len() && has_abbr(#[trigger] ds.drop_last()[i], a);
            assert(has_abbr(ds[i], a));
        } else {
            assert forall|i: int| 0 <= i < ds.len() implies !has_abbr(#[trigger] ds[i], a) by {
                if i < ds.len() - 1 {
                    assert(ds.drop_last()[i] == ds[i]);
                }
            }
        }
    }
}

} // verus!
