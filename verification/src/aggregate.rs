//! The aggregation step: merging many parsed resource files into one
//! [`AggregatedTable`] keyed by resource identifier.
//!
//! Reading the directory and the files is the caller's business; this module
//! takes the file contents as plain values and is exact about the merge: the
//! result maps each identifier to the parse of its content, later entries
//! winning, so the key set of the result never depends on processing order.

use crate::parser::spec_parse;
use crate::parser::parse;
use crate::table::AggregatedTable;
use vstd::prelude::*;
use vstd::seq_lib::group_seq_properties;

verus! {

/// The merged mapping described by a sequence of (identifier, content)
/// pairs: each identifier is bound to the parse of its content, a later
/// pair for the same identifier winning.
pub open spec fn spec_aggregate(
    files: Seq<(Seq<char>, Seq<char>)>,
) -> Map<Seq<char>, Map<Seq<char>, Seq<char>>>
    decreases files.len(),
{
    if files.len() == 0 {
        Map::empty()
    } else {
        spec_aggregate(files.drop_last()).insert(
            files.last().0,
            spec_parse(files.last().1),
        )
    }
}

/// The set of identifiers occurring in `files`.
pub open spec fn ids_of(files: Seq<(Seq<char>, Seq<char>)>) -> Set<Seq<char>> {
    Set::new(|id: Seq<char>| exists|i: int| 0 <= i < files.len() && (#[trigger] files[i]).0 == id)
}

/// Merges already-read file contents into one aggregated table.
///
/// `files` holds one (resource identifier, file content) pair per resource
/// file, the identifier being the file name without its extension.  Each
/// content is parsed independently and the results are keyed by identifier;
/// if two entries carry the same identifier the later one wins.
pub fn aggregate_contents(files: &Vec<(String, String)>) -> (t: AggregatedTable)
    ensures
        t.wf(),
        t.model() == spec_aggregate(
            files@.map_values(|p: (String, String)| (p.0@, p.1@)),
        ),
{
    let ghost fs = files@.map_values(|p: (String, String)| (p.0@, p.1@));
    let mut t = AggregatedTable::new();
    let n = files.len();
    let mut i: usize = 0;
    proof {
        assert(spec_aggregate(fs.take(0)) =~= Map::<Seq<char>, Map<Seq<char>, Seq<char>>>::empty());
    }
    while i < n
        invariant
            t.wf(),
            n == files.len(),
            i <= n,
            fs.len() == n,
            forall|j: int| 0 <= j < n ==> #[trigger] fs[j] == (files@[j].0@, files@[j].1@),
            t.model() == spec_aggregate(fs.take(i as int)),
        decreases n - i,
    {
        let id = files[i].0.clone();
        let parsed = parse(files[i].1.as_str());
        t.insert(id, parsed);
        proof {
            assert(fs.take(i + 1).drop_last() =~= fs.take(i as int));
            assert(fs.take(i + 1).last() == fs[i as int]);
        }
        i = i + 1;
    }
    proof {
        assert(fs.take(n as int) =~= fs);
    }
    t
}

/// The identifiers bound by the merged mapping are exactly the identifiers
/// of the input pairs.
pub proof fn lemma_aggregate_dom(files: Seq<(Seq<char>, Seq<char>)>)
    ensures
        spec_aggregate(files).dom() =~= ids_of(files),
    decreases files.len(),
{
    if files.len() > 0 {
        lemma_aggregate_dom(files.drop_last());
        assert forall|id: Seq<char>| ids_of(files.drop_last()).contains(id)
            || id == files.last().0 implies ids_of(files).contains(id) by {
            if ids_of(files.drop_last()).contains(id) {
                let i = choose|i: int|
                    0 <= i < files.drop_last().len() && (#[trigger] files.drop_last()[i]).0 == id;
                assert(files[i].0 == id);
            } else {
                assert(files[files.len() - 1].0 == id);
            }
        }
        assert forall|id: Seq<char>| ids_of(files).contains(id)
            implies ids_of(files.drop_last()).contains(id) || id == files.last().0 by {
            let i = choose|i: int| 0 <= i < files.len() && (#[trigger] files[i]).0 == id;
            if i < files.len() - 1 {
                assert(files.drop_last()[i].0 == id);
            }
        }
    }
}

/// Aggregation is order-independent under key-set comparison: two inputs
/// that hold the same pairs, in any order, yield merged mappings with the
/// same resource identifiers.
pub proof fn lemma_aggregate_order_independent(
    a: Seq<(Seq<char>, Seq<char>)>,
    b: Seq<(Seq<char>, Seq<char>)>,
)
    requires
        a.to_multiset() == b.to_multiset(),
    ensures
        spec_aggregate(a).dom() == spec_aggregate(b).dom(),
{
    broadcast use group_seq_properties;

    lemma_aggregate_dom(a);
    lemma_aggregate_dom(b);
    assert forall|id: Seq<char>| ids_of(a).contains(id) implies ids_of(b).contains(id) by {
        let i = choose|i: int| 0 <= i < a.len() && (#[trigger] a[i]).0 == id;
        assert(a.to_multiset().contains(a[i]));
        assert(b.to_multiset().contains(a[i]));
        assert(b.contains(a[i]));
        let j = choose|j: int| 0 <= j < b.len() && b[j] == a[i];
        assert(b[j].0 == id);
    }
    assert forall|id: Seq<char>| ids_of(b).contains(id) implies ids_of(a).contains(id) by {
        let j = choose|j: int| 0 <= j < b.len() && (#[trigger] b[j]).0 == id;
        assert(b.to_multiset().contains(b[j]));
        assert(a.to_multiset().contains(b[j]));
        assert(a.contains(b[j]));
        let i = choose|i: int| 0 <= i < a.len() && a[i] == b[j];
        assert(a[i].0 == id);
    }
    assert(ids_of(a) =~= ids_of(b));
    assert(spec_aggregate(a).dom() =~= spec_aggregate(b).dom());
}

} // verus!
