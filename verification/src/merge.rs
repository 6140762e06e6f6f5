//! The merger: reads several named sources and concatenates their records,
//! preserving the caller-given order. The order matters: when two sources
//! define the same key, the later source wins in the derived indexes, so the
//! order decides which convention breaks ties.

use vstd::prelude::*;

verus! {

use crate::error::DataError;
use crate::journal::{Journal, JournalView};
use crate::reader::{parse_source, parse_source_spec};

/// The two supported precedence orders: sources whose abbreviations are
/// period-delimited, and sources whose abbreviations carry no periods.
#[derive(Clone, Copy, PartialEq, Eq, Structural, Debug)]
pub enum SourceOrder {
    Dotted,
    Dotless,
}

/// The file names of the period-delimited order: general sciences, physics
/// and geology, life sciences and medicine, IEEE, mathematics, mechanical
/// engineering, meteorology, sociology, chemistry, the mathematical society,
/// and the broad citation index.
pub open spec fn dotted_file_names() -> Seq<Seq<char>> {
    seq![
        "journal_abbreviations_general.csv"@,
        "journal_abbreviations_geology_physics.csv"@,
        "journal_abbreviations_lifescience.csv"@,
        "journal_abbreviations_ieee.csv"@,
        "journal_abbreviations_mathematics.csv"@,
        "journal_abbreviations_mechanical.csv"@,
        "journal_abbreviations_meteorology.csv"@,
        "journal_abbreviations_sociology.csv"@,
        "journal_abbreviations_acs.csv"@,
        "journal_abbreviations_ams.csv"@,
        "journal_abbreviations_webofscience-dots.csv"@,
    ]
}

/// The file names of the period-free order: the biomedical index, the
/// general medical index, and the broad citation index without periods.
pub open spec fn dotless_file_names() -> Seq<Seq<char>> {
    seq![
        "journal_abbreviations_entrez.csv"@,
        "journal_abbreviations_medicus.csv"@,
        "journal_abbreviations_webofscience-dotless.csv"@,
    ]
}

/// The file names of the given order, in precedence order.
pub open spec fn order_file_names(order: SourceOrder) -> Seq<Seq<char>> {
    match order {
        SourceOrder::Dotted => dotted_file_names(),
        SourceOrder::Dotless => dotless_file_names(),
    }
}

/// The source file names of the given precedence order, earliest first.
pub fn source_file_names(order: SourceOrder) -> (r: Vec<String>)
    ensures
        r.deep_view() == order_file_names(order),
{
    let mut r: Vec<String> = Vec::new();
    match order {
        SourceOrder::Dotted => {
            r.push(String::from_str("journal_abbreviations_general.csv"));
            r.push(String::from_str("journal_abbreviations_geology_physics.csv"));
            r.push(String::from_str("journal_abbreviations_lifescience.csv"));
            r.push(String::from_str("journal_abbreviations_ieee.csv"));
            r.push(String::from_str("journal_abbreviations_mathematics.csv"));
            r.push(String::from_str("journal_abbreviations_mechanical.csv"));
            r.push(String::from_str("journal_abbreviations_meteorology.csv"));
            r.push(String::from_str("journal_abbreviations_sociology.csv"));
            r.push(String::from_str("journal_abbreviations_acs.csv"));
            r.push(String::from_str("journal_abbreviations_ams.csv"));
            r.push(String::from_str("journal_abbreviations_webofscience-dots.csv"));
            assert(r.deep_view() =~= dotted_file_names());
        },
        SourceOrder::Dotless => {
            r.push(String::from_str("journal_abbreviations_entrez.csv"));
            r.push(String::from_str("journal_abbreviations_medicus.csv"));
            r.push(String::from_str("journal_abbreviations_webofscience-dotless.csv"));
            assert(r.deep_view() =~= dotless_file_names());
        },
    }
    r
}

/// The records a source contributes to the merge: its parsed records, or
/// nothing when it does not parse.
pub open spec fn source_records(source: (Seq<char>, Seq<char>)) -> Seq<JournalView> {
    match parse_source_spec(source.1) {
        Ok(ds) => ds,
        Err(_) => Seq::empty(),
    }
}

/// The concatenated records of the given `(name, text)` sources, in source
/// order and, within a source, in row order.
pub open spec fn merged_records(sources: Seq<(Seq<char>, Seq<char>)>) -> Seq<JournalView>
    decreases sources.len(),
{
    if sources.len() == 0 {
        Seq::empty()
    } else {
        source_records(sources[0]) + merged_records(sources.drop_first())
    }
}

/// Index of the first source whose text does not parse, or -1 when all do.
pub open spec fn first_failing_source(sources: Seq<(Seq<char>, Seq<char>)>) -> int
    decreases sources.len(),
{
    if sources.len() == 0 {
        -1
    } else if parse_source_spec(sources[0].1) is Err {
        0
    } else if first_failing_source(sources.drop_first()) < 0 {
        -1
    } else {
        1 + first_failing_source(sources.drop_first())
    }
}

/// What merging yields: the concatenated records, or, for the first source
/// that fails to parse, its name and the failing row's 1-based number.
pub open spec fn merge_spec(sources: Seq<(Seq<char>, Seq<char>)>) -> Result<
    Seq<JournalView>,
    (Seq<char>, int),
> {
    let f = first_failing_source(sources);
    if f >= 0 {
        Err((sources[f].0, parse_source_spec(sources[f].1)->Err_0))
    } else {
        Ok(merged_records(sources))
    }
}

/// `first_failing_source` points at a failing source with none before it;
/// when it is -1 every source parses.
pub proof fn lemma_first_failing_source(sources: Seq<(Seq<char>, Seq<char>)>)
    ensures
        first_failing_source(sources) >= 0 ==> first_failing_source(sources) < sources.len()
            && parse_source_spec(sources[first_failing_source(sources)].1) is Err,
        first_failing_source(sources) < 0 ==> forall|i: int|
            0 <= i < sources.len() ==> !(parse_source_spec(#[trigger] sources[i].1) is Err),
    decreases sources.len(),
{
    if sources.len() == 0 {
    } else if parse_source_spec(sources[0].1) is Err {
    } else {
        lemma_first_failing_source(sources.drop_first());
        assert forall|i: int|
            first_failing_source(sources) < 0 && 0 <= i < sources.len() implies !(parse_source_spec(
            #[trigger] sources[i].1,
        ) is Err) by {
            if i > 0 {
                assert(sources[i] == sources.drop_first()[i - 1]);
            }
        }
    }
}

/// A source that fails to read fails the whole merge: merging succeeds
/// exactly when every source parses, so no partial dataset is ever produced.
pub proof fn lemma_failing_source_fails_merge(sources: Seq<(Seq<char>, Seq<char>)>)
    ensures
        merge_spec(sources) is Err <==> (exists|i: int|
            0 <= i < sources.len() && parse_source_spec(#[trigger] sources[i].1) is Err),
{
    lemma_first_failing_source(sources);
    if merge_spec(sources) is Err {
        let f = first_failing_source(sources);
        assert(parse_source_spec(sources[f].1) is Err);
    }
}

/// With no failing source among the first `k`, the first failing source is
/// `k` exactly when source `k` fails, and absent when `k` is the end.
proof fn lemma_first_failing_source_prefix(sources: Seq<(Seq<char>, Seq<char>)>, k: int)
    requires
        0 <= k <= sources.len(),
        forall|i: int| 0 <= i < k ==> !(parse_source_spec(#[trigger] sources[i].1) is Err),
    ensures
        k < sources.len() && parse_source_spec(sources[k].1) is Err ==> first_failing_source(
            sources,
        ) == k,
        k == sources.len() ==> first_failing_source(sources) == -1,
    decreases sources.len(),
{
    if sources.len() == 0 {
    } else if parse_source_spec(sources[0].1) is Err {
        assert(0 < k ==> !(parse_source_spec(sources[0].1) is Err));
    } else {
        if k >= 1 {
            assert forall|i: int| 0 <= i < k - 1 implies !(parse_source_spec(
                #[trigger] sources.drop_first()[i].1,
            ) is Err) by {
                assert(sources.drop_first()[i] == sources[i + 1]);
            }
            lemma_first_failing_source_prefix(sources.drop_first(), k - 1);
            if k < sources.len() {
                assert(sources.drop_first()[k - 1] == sources[k]);
            }
        }
    }
}

/// Appending a source extends the merged records by that source's records.
proof fn lemma_merged_records_push(
    sources: Seq<(Seq<char>, Seq<char>)>,
    source: (Seq<char>, Seq<char>),
)
    ensures
        merged_records(sources.push(source)) == merged_records(sources) + source_records(source),
    decreases sources.len(),
{
    if sources.len() == 0 {
        assert(sources.push(source)[0] == source);
        assert(sources.push(source).drop_first() =~= Seq::<(Seq<char>, Seq<char>)>::empty());
        assert(merged_records(Seq::<(Seq<char>, Seq<char>)>::empty()) =~= Seq::<
            JournalView,
        >::empty());
        assert(merged_records(sources.push(source)) =~= merged_records(sources) + source_records(
            source,
        ));
    } else {
        assert(sources.push(source)[0] == sources[0]);
        assert(sources.push(source).drop_first() =~= sources.drop_first().push(source));
        lemma_merged_records_push(sources.drop_first(), source);
        let a = source_records(sources[0]);
        let b = merged_records(sources.drop_first());
        let c = source_records(source);
        assert(merged_records(sources.push(source)) == a + (b + c));
        assert(a + (b + c) =~= (a + b) + c);
        assert(merged_records(sources) == a + b);
    }
}

/// Merges the given `(name, text)` sources in order: reads each source and
/// concatenates the records, or reports the first source that fails with its
/// name and the failing row. Every record returned is well formed.
pub fn merge_sources(sources: &Vec<(String, String)>) -> (r: Result<Vec<Journal>, DataError>)
    ensures
        (r matches Ok(v) ==> merge_spec(sources.deep_view()) == Ok::<_, (Seq<char>, int)>(
            v.deep_view(),
        )),
        (r matches Ok(v) ==> forall|i: int|
            0 <= i < v.deep_view().len() ==> (#[trigger] v.deep_view()[i]).wf()),
        (r matches Err(e) ==> merge_spec(sources.deep_view()) matches Err(f)
            && e matches DataError::MalformedRecord { source, row } && source@ == f.0
            && row as int == f.1),
{
    let ghost sources_dv = sources.deep_view();
    let n: usize = sources.len();
    let mut out: Vec<Journal> = Vec::new();
    let mut k: usize = 0;
    while k < n
        invariant
            n == sources@.len(),
            sources.deep_view() == sources_dv,
            k <= n,
            forall|i: int|
                0 <= i < k ==> !(parse_source_spec(#[trigger] sources_dv[i].1) is Err),
            out.deep_view() == merged_records(sources_dv.take(k as int)),
            forall|i: int|
                0 <= i < out.deep_view().len() ==> (#[trigger] out.deep_view()[i]).wf(),
        decreases n - k,
    {
        let ghost src = sources_dv[k as int];
        let ghost out_dv = out.deep_view();
        proof {
            assert(sources@[k as int].deep_view() == src);
            assert(sources_dv.take(k + 1).drop_last() =~= sources_dv.take(k as int));
            assert(sources_dv.take(k + 1) =~= sources_dv.take(k as int).push(src));
            lemma_merged_records_push(sources_dv.take(k as int), src);
        }
        let pair = &sources[k];
        match parse_source(pair.1.as_str()) {
            Ok(mut part) => {
                let ghost part_dv = part.deep_view();
                out.append(&mut part);
                proof {
                    assert(out.deep_view() =~~= out_dv + part_dv);
                    assert(source_records(src) == part_dv);
                    assert(out.deep_view() == merged_records(sources_dv.take(k + 1)));
                }
            },
            Err(e) => {
                proof {
                    lemma_first_failing_source_prefix(sources_dv, k as int);
                    assert(first_failing_source(sources_dv) == k as int);
                }
                return Err(DataError::MalformedRecord { source: pair.0.clone(), row: e.row });
            },
        }
        k = k + 1;
    }
    proof {
        assert(sources_dv.take(n as int) =~= sources_dv);
        lemma_first_failing_source_prefix(sources_dv, n as int);
    }
    Ok(out)
}

} // verus!
