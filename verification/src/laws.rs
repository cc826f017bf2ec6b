//! The laws of the index, stated and proved once for every run.
//!
//! Every mapping the tool emits is canonical: its rows are strictly sorted by
//! key, so equal contents force equal documents (idempotence), keys and names
//! are unique, keys are normalized and filtered, and all entries share one
//! form.

use vstd::prelude::*;
use crate::index::entry_views;
use crate::index::Document;
use crate::index::IconIndex;
use crate::json::document_json;
use crate::json::icons_items;
use crate::json::revision_json;
use crate::paths::ends_with_dmi;
use crate::paths::no_backslash;
use crate::text::lemma_lex_asym;
use crate::text::lemma_lex_irrefl;
use crate::text::lex_lt;
use crate::text::sorted_strict;

verus! {

/// One emitted row, mathematically: key, form, names.
pub open spec fn rows_sorted(s: Seq<(Seq<u8>, bool, Seq<Seq<u8>>)>) -> bool {
    forall|i: int, j: int|
        0 <= i < j < s.len() ==> lex_lt(#[trigger] s[i].0, #[trigger] s[j].0)
}

/// The revision, mathematically.
pub open spec fn revision_view(r: Option<Vec<u8>>) -> Option<Seq<u8>> {
    match r {
        Option::None => Option::None,
        Option::Some(v) => Option::Some(v@),
    }
}

proof fn lemma_tail_set(s: Seq<Seq<u8>>)
    requires
        sorted_strict(s),
        s.len() > 0,
    ensures
        sorted_strict(s.skip(1)),
        s.skip(1).to_set() == s.to_set().remove(s[0]),
{
    let t = s.skip(1);
    assert forall|p: int, q: int| 0 <= p < q < t.len() implies lex_lt(t[p], t[q]) by {
        assert(t[p] == s[p + 1]);
        assert(t[q] == s[q + 1]);
    }
    assert forall|y: Seq<u8>| t.to_set().contains(y) implies s.to_set().remove(s[0]).contains(
        y,
    ) by {
        let k = choose|k: int| 0 <= k < t.len() && t[k] == y;
        assert(s[k + 1] == y);
        assert(s.contains(y));
        assert(lex_lt(s[0], s[k + 1]));
        if y == s[0] {
            lemma_lex_irrefl(y);
        }
    }
    assert forall|y: Seq<u8>| s.to_set().remove(s[0]).contains(y) implies t.to_set().contains(
        y,
    ) by {
        let k = choose|k: int| 0 <= k < s.len() && s[k] == y;
        if k > 0 {
            assert(t[k - 1] == y);
            assert(t.contains(y));
        }
    }
    assert(t.to_set() =~= s.to_set().remove(s[0]));
}

/// Uniqueness of the canonical form: two strictly sorted lists with the same
/// contents are the same list. This is what makes a run reproducible: the
/// emitted order is forced by the set of names alone.
pub proof fn lemma_sorted_set_canonical(a: Seq<Seq<u8>>, b: Seq<Seq<u8>>)
    requires
        sorted_strict(a),
        sorted_strict(b),
        a.to_set() == b.to_set(),
    ensures
        a == b,
    decreases a.len(),
{
    if a.len() == 0 {
        if b.len() > 0 {
            assert(b.contains(b[0]));
            assert(a.to_set().contains(b[0]));
            let k = choose|k: int| 0 <= k < a.len() && a[k] == b[0];
            assert(false);
        }
        assert(a =~= b);
    } else if b.len() == 0 {
        assert(a.contains(a[0]));
        assert(b.to_set().contains(a[0]));
        let k = choose|k: int| 0 <= k < b.len() && b[k] == a[0];
        assert(false);
    } else {
        assert(a.contains(a[0]));
        assert(b.to_set().contains(a[0]));
        let i = choose|i: int| 0 <= i < b.len() && b[i] == a[0];
        assert(b.contains(b[0]));
        assert(a.to_set().contains(b[0]));
        let j = choose|j: int| 0 <= j < a.len() && a[j] == b[0];
        if i > 0 {
            assert(lex_lt(b[0], b[i]));
            if j > 0 {
                assert(lex_lt(a[0], a[j]));
                lemma_lex_asym(a[0], b[0]);
            } else {
                lemma_lex_irrefl(a[0]);
            }
            assert(false);
        }
        assert(b[0] == a[0]);
        lemma_tail_set(a);
        lemma_tail_set(b);
        assert(a.skip(1).to_set() =~= b.skip(1).to_set());
        lemma_sorted_set_canonical(a.skip(1), b.skip(1));
        assert forall|k: int| 0 <= k < a.len() implies a[k] == b[k] by {
            if k > 0 {
                assert(a[k] == a.skip(1)[k - 1]);
                assert(b[k] == b.skip(1)[k - 1]);
            }
        }
        assert(a =~= b);
    }
}

proof fn lemma_rows_tail_set(s: Seq<(Seq<u8>, bool, Seq<Seq<u8>>)>)
    requires
        rows_sorted(s),
        s.len() > 0,
    ensures
        rows_sorted(s.skip(1)),
        s.skip(1).to_set() == s.to_set().remove(s[0]),
{
    let t = s.skip(1);
    assert forall|p: int, q: int| 0 <= p < q < t.len() implies lex_lt(t[p].0, t[q].0) by {
        assert(t[p] == s[p + 1]);
        assert(t[q] == s[q + 1]);
    }
    assert forall|y: (Seq<u8>, bool, Seq<Seq<u8>>)| t.to_set().contains(y) implies s.to_set()
        .remove(s[0]).contains(y) by {
        let k = choose|k: int| 0 <= k < t.len() && t[k] == y;
        assert(s[k + 1] == y);
        assert(s.contains(y));
        assert(lex_lt(s[0].0, s[k + 1].0));
        if y == s[0] {
            lemma_lex_irrefl(y.0);
        }
    }
    assert forall|y: (Seq<u8>, bool, Seq<Seq<u8>>)| s.to_set().remove(s[0]).contains(y) implies t
        .to_set().contains(y) by {
        let k = choose|k: int| 0 <= k < s.len() && s[k] == y;
        if k > 0 {
            assert(t[k - 1] == y);
            assert(t.contains(y));
        }
    }
    assert(t.to_set() =~= s.to_set().remove(s[0]));
}

/// Uniqueness of the canonical form at the document level: two key-sorted
/// row lists with the same rows are identical, keys and values alike.
pub proof fn lemma_rows_canonical(
    a: Seq<(Seq<u8>, bool, Seq<Seq<u8>>)>,
    b: Seq<(Seq<u8>, bool, Seq<Seq<u8>>)>,
)
    requires
        rows_sorted(a),
        rows_sorted(b),
        a.to_set() == b.to_set(),
    ensures
        a == b,
    decreases a.len(),
{
    if a.len() == 0 {
        if b.len() > 0 {
            assert(b.contains(b[0]));
            assert(a.to_set().contains(b[0]));
            let k = choose|k: int| 0 <= k < a.len() && a[k] == b[0];
            assert(false);
        }
        assert(a =~= b);
    } else if b.len() == 0 {
        assert(a.contains(a[0]));
        assert(b.to_set().contains(a[0]));
        let k = choose|k: int| 0 <= k < b.len() && b[k] == a[0];
        assert(false);
    } else {
        assert(a.contains(a[0]));
        assert(b.to_set().contains(a[0]));
        let i = choose|i: int| 0 <= i < b.len() && b[i] == a[0];
        assert(b.contains(b[0]));
        assert(a.to_set().contains(b[0]));
        let j = choose|j: int| 0 <= j < a.len() && a[j] == b[0];
        if i > 0 {
            assert(lex_lt(b[0].0, b[i].0));
            if j > 0 {
                assert(lex_lt(a[0].0, a[j].0));
                lemma_lex_asym(a[0].0, b[0].0);
            } else {
                lemma_lex_irrefl(a[0].0);
            }
            assert(false);
        }
        assert(b[0] == a[0]);
        lemma_rows_tail_set(a);
        lemma_rows_tail_set(b);
        assert(a.skip(1).to_set() =~= b.skip(1).to_set());
        lemma_rows_canonical(a.skip(1), b.skip(1));
        assert forall|k: int| 0 <= k < a.len() implies a[k] == b[k] by {
            if k > 0 {
                assert(a[k] == a.skip(1)[k - 1]);
                assert(b[k] == b.skip(1)[k - 1]);
            }
        }
        assert(a =~= b);
    }
}

/// A well-formed index has its rows sorted by key.
pub proof fn lemma_index_rows_sorted(ix: IconIndex)
    requires
        ix.wf(),
    ensures
        rows_sorted(entry_views(ix.entries@)),
{
    let rows = entry_views(ix.entries@);
    assert forall|i: int, j: int| 0 <= i < j < rows.len() implies lex_lt(rows[i].0, rows[j].0) by {
        assert(rows[i].0 == ix.keys()[i]);
        assert(rows[j].0 == ix.keys()[j]);
    }
}

/// Idempotence: two well-formed documents that hold the same rows and the
/// same revision render as byte-identical JSON, in either output mode. The
/// emitted bytes depend on the contents alone, never on the order in which
/// files were encountered.
pub proof fn lemma_idempotent_document(d1: Document, d2: Document, pretty: bool)
    requires
        d1.wf(),
        d2.wf(),
        revision_view(d1.revision) == revision_view(d2.revision),
        entry_views(d1.icons.entries@).to_set() == entry_views(d2.icons.entries@).to_set(),
    ensures
        document_json(d1, pretty) == document_json(d2, pretty),
{
    lemma_index_rows_sorted(d1.icons);
    lemma_index_rows_sorted(d2.icons);
    let r1 = entry_views(d1.icons.entries@);
    let r2 = entry_views(d2.icons.entries@);
    lemma_rows_canonical(r1, r2);
    let e1 = d1.icons.entries@;
    let e2 = d2.icons.entries@;
    assert forall|i: int| 0 <= i < e1.len() implies icons_items(e1, pretty)[i] == icons_items(
        e2,
        pretty,
    )[i] by {
        assert(r1[i] == r2[i]);
        assert(r1[i] == (e1[i].path@, e1[i].states.is_assoc(), e1[i].states.names()));
        assert(r2[i] == (e2[i].path@, e2[i].states.is_assoc(), e2[i].states.names()));
    }
    assert(icons_items(e1, pretty) =~= icons_items(e2, pretty));
    assert(revision_json(d1.revision) == revision_json(d2.revision));
    assert(seq![
        crate::json::revision_key() + crate::json::colon(pretty) + revision_json(d1.revision),
        crate::json::icons_key() + crate::json::colon(pretty) + crate::json::wrapped(
            icons_items(e1, pretty),
            123u8,
            125u8,
            pretty,
            1,
        ),
    ] =~= seq![
        crate::json::revision_key() + crate::json::colon(pretty) + revision_json(d2.revision),
        crate::json::icons_key() + crate::json::colon(pretty) + crate::json::wrapped(
            icons_items(e2, pretty),
            123u8,
            125u8,
            pretty,
            1,
        ),
    ]);
}

/// Ordering: the emitted keys, and the names within every entry, are in
/// strict ascending byte order.
pub proof fn lemma_ordering(ix: IconIndex)
    requires
        ix.wf(),
    ensures
        sorted_strict(ix.keys()),
        forall|i: int|
            0 <= i < ix.entries@.len() ==> sorted_strict(
                #[trigger] ix.entries@[i].states.names(),
            ),
{
}

/// Uniqueness: no key appears twice, and no name appears twice within one
/// entry.
pub proof fn lemma_uniqueness(ix: IconIndex)
    requires
        ix.wf(),
    ensures
        forall|i: int, j: int|
            0 <= i < j < ix.keys().len() ==> #[trigger] ix.keys()[i] != #[trigger] ix.keys()[j],
        forall|t: int, i: int, j: int|
            0 <= t < ix.entries@.len() && 0 <= i < j < ix.entries@[t].states.names().len()
                ==> #[trigger] ix.entries@[t].states.names()[i] != #[trigger] ix.entries@[
                t
            ].states.names()[j],
{
    assert forall|i: int, j: int| 0 <= i < j < ix.keys().len() implies #[trigger] ix.keys()[i]
        != #[trigger] ix.keys()[j] by {
        assert(lex_lt(ix.keys()[i], ix.keys()[j]));
        if ix.keys()[i] == ix.keys()[j] {
            lemma_lex_irrefl(ix.keys()[i]);
        }
    }
    assert forall|t: int, i: int, j: int|
        0 <= t < ix.entries@.len() && 0 <= i < j < ix.entries@[t].states.names().len()
        implies #[trigger] ix.entries@[t].states.names()[i] != #[trigger] ix.entries@[
        t
    ].states.names()[j] by {
        let names = ix.entries@[t].states.names();
        assert(lex_lt(names[i], names[j]));
        if names[i] == names[j] {
            lemma_lex_irrefl(names[i]);
        }
    }
}

/// Separator normalization: no emitted key contains a backslash.
pub proof fn lemma_separator_normalization(ix: IconIndex)
    requires
        ix.wf(),
    ensures
        forall|i: int| 0 <= i < ix.keys().len() ==> no_backslash(#[trigger] ix.keys()[i]),
{
    assert forall|i: int| 0 <= i < ix.keys().len() implies no_backslash(
        #[trigger] ix.keys()[i],
    ) by {
        assert(ix.keys()[i] == ix.entries@[i].path@);
    }
}

/// Extension filter: every emitted key ends with `.dmi`.
pub proof fn lemma_extension_filter(ix: IconIndex)
    requires
        ix.wf(),
    ensures
        forall|i: int| 0 <= i < ix.keys().len() ==> ends_with_dmi(#[trigger] ix.keys()[i]),
{
    assert forall|i: int| 0 <= i < ix.keys().len() implies ends_with_dmi(
        #[trigger] ix.keys()[i],
    ) by {
        assert(ix.keys()[i] == ix.entries@[i].path@);
    }
}

/// Form uniformity: within one run every entry has the form the run chose.
pub proof fn lemma_form_uniformity(ix: IconIndex)
    requires
        ix.wf(),
    ensures
        forall|i: int|
            0 <= i < ix.entries@.len() ==> #[trigger] ix.entries@[i].states.is_assoc()
                == ix.assoc,
{
}

} // verus!
