//! The emitter: renders a document as JSON bytes, compact or pretty.
//!
//! The byte sequence produced is pinned down exactly by spec functions:
//! strings are escaped as JSON demands (short escapes for the common control
//! characters, `\u00..` with lowercase hex for the rest, everything from the
//! space character on verbatim), the set form becomes an array, the
//! associative form an object whose values are all `true`, and pretty output
//! indents each nesting level by two spaces.

use vstd::prelude::*;
use crate::entry::IconStates;
use crate::index::Document;
use crate::index::IconIndex;
use crate::index::IndexEntry;
use crate::text::seq_views;

verus! {

pub open spec fn hex_digit(n: int) -> u8 {
    if n < 10 {
        (48 + n) as u8
    } else {
        (87 + n) as u8
    }
}

/// How one byte of a string appears inside a JSON string literal.
pub open spec fn escaped_byte(b: u8) -> Seq<u8> {
    if b == 34 {
        seq![92u8, 34u8]
    } else if b == 92 {
        seq![92u8, 92u8]
    } else if b == 8 {
        seq![92u8, 98u8]
    } else if b == 9 {
        seq![92u8, 116u8]
    } else if b == 10 {
        seq![92u8, 110u8]
    } else if b == 12 {
        seq![92u8, 102u8]
    } else if b == 13 {
        seq![92u8, 114u8]
    } else if b < 32 {
        seq![92u8, 117u8, 48u8, 48u8, hex_digit(b as int / 16), hex_digit(b as int % 16)]
    } else {
        seq![b]
    }
}

pub open spec fn escaped(s: Seq<u8>) -> Seq<u8>
    decreases s.len(),
{
    if s.len() == 0 {
        Seq::empty()
    } else {
        escaped_byte(s[0]) + escaped(s.skip(1))
    }
}

/// A JSON string literal: the escaped bytes between two quotes.
pub open spec fn quoted(s: Seq<u8>) -> Seq<u8> {
    seq![34u8] + escaped(s) + seq![34u8]
}

/// The line break and indentation that precede something at the given
/// nesting depth; empty in compact output.
pub open spec fn nl_indent(pretty: bool, depth: int) -> Seq<u8>
    decreases depth,
{
    if !pretty {
        Seq::empty()
    } else if depth <= 0 {
        seq![10u8]
    } else {
        nl_indent(pretty, depth - 1) + seq![32u8, 32u8]
    }
}

/// The separator between a key and its value.
pub open spec fn colon(pretty: bool) -> Seq<u8> {
    if pretty {
        seq![58u8, 32u8]
    } else {
        seq![58u8]
    }
}

pub open spec fn joined(items: Seq<Seq<u8>>, sep: Seq<u8>) -> Seq<u8>
    decreases items.len(),
{
    if items.len() == 0 {
        Seq::empty()
    } else if items.len() == 1 {
        items[0]
    } else {
        items[0] + sep + joined(items.skip(1), sep)
    }
}

/// A JSON array or object around the given rendered items.
pub open spec fn wrapped(items: Seq<Seq<u8>>, open: u8, close: u8, pretty: bool, depth: int)
    -> Seq<u8> {
    if items.len() == 0 {
        seq![open, close]
    } else {
        seq![open] + nl_indent(pretty, depth + 1) + joined(
            items,
            seq![44u8] + nl_indent(pretty, depth + 1),
        ) + nl_indent(pretty, depth) + seq![close]
    }
}

pub open spec fn true_lit() -> Seq<u8> {
    seq![116u8, 114u8, 117u8, 101u8]
}

pub open spec fn null_lit() -> Seq<u8> {
    seq![110u8, 117u8, 108u8, 108u8]
}

/// The items inside one entry: quoted names, or `"name": true` pairs.
pub open spec fn entry_items(names: Seq<Seq<u8>>, assoc: bool, pretty: bool) -> Seq<Seq<u8>> {
    if assoc {
        names.map_values(|n: Seq<u8>| quoted(n) + colon(pretty) + true_lit())
    } else {
        names.map_values(|n: Seq<u8>| quoted(n))
    }
}

/// One entry rendered at the given depth: an array in the set form, an
/// object in the associative form.
pub open spec fn states_json(names: Seq<Seq<u8>>, assoc: bool, pretty: bool, depth: int)
    -> Seq<u8> {
    if assoc {
        wrapped(entry_items(names, assoc, pretty), 123u8, 125u8, pretty, depth)
    } else {
        wrapped(entry_items(names, assoc, pretty), 91u8, 93u8, pretty, depth)
    }
}

/// The items of the `icons` object, one per indexed file.
pub open spec fn icons_items(entries: Seq<IndexEntry>, pretty: bool) -> Seq<Seq<u8>> {
    entries.map_values(
        |e: IndexEntry| quoted(e.path@) + colon(pretty) + states_json(
            e.states.names(),
            e.states.is_assoc(),
            pretty,
            2,
        ),
    )
}

pub open spec fn revision_json(revision: Option<Vec<u8>>) -> Seq<u8> {
    match revision {
        Option::None => null_lit(),
        Option::Some(rev) => quoted(rev@),
    }
}

/// The quoted key `"revision"`.
pub open spec fn revision_key() -> Seq<u8> {
    seq![34u8, 114u8, 101u8, 118u8, 105u8, 115u8, 105u8, 111u8, 110u8, 34u8]
}

/// The quoted key `"icons"`.
pub open spec fn icons_key() -> Seq<u8> {
    seq![34u8, 105u8, 99u8, 111u8, 110u8, 115u8, 34u8]
}

/// The whole document: an object with exactly the keys `revision` and
/// `icons`, in that order.
pub open spec fn document_json(doc: Document, pretty: bool) -> Seq<u8> {
    wrapped(
        seq![
            revision_key() + colon(pretty) + revision_json(doc.revision),
            icons_key() + colon(pretty) + wrapped(
                icons_items(doc.icons.entries@, pretty),
                123u8,
                125u8,
                pretty,
                1,
            ),
        ],
        123u8,
        125u8,
        pretty,
        0,
    )
}

/// Joining one more item appends a separator and the item.
pub proof fn lemma_joined_snoc(a: Seq<Seq<u8>>, x: Seq<u8>, sep: Seq<u8>)
    requires
        a.len() >= 1,
    ensures
        joined(a.push(x), sep) == joined(a, sep) + sep + x,
    decreases a.len(),
{
    if a.len() == 1 {
        let p = a.push(x);
        assert(p.skip(1) =~= seq![x]);
        assert(joined(p.skip(1), sep) == x);
        assert(joined(p, sep) == a[0] + sep + x);
        assert(joined(a, sep) == a[0]);
    } else {
        lemma_joined_snoc(a.skip(1), x, sep);
        let p = a.push(x);
        assert(p.skip(1) =~= a.skip(1).push(x));
        assert(joined(p, sep) == p[0] + sep + joined(a.skip(1).push(x), sep));
        assert(p[0] == a[0]);
        assert(a[0] + sep + (joined(a.skip(1), sep) + sep + x) =~= (a[0] + sep + joined(
            a.skip(1),
            sep,
        )) + sep + x);
    }
}

fn hex_u8(n: u8) -> (r: u8)
    requires
        n < 16,
    ensures
        r == hex_digit(n as int),
{
    if n < 10 {
        48 + n
    } else {
        87 + n
    }
}

/// Appends the escaped form of `s` to `out`.
#[verifier::loop_isolation(false)]
fn push_escaped(out: &mut Vec<u8>, s: &Vec<u8>)
    ensures
        final(out)@ == old(out)@ + escaped(s@),
{
    let ghost base = out@;
    let ghost sv = s@;
    let mut i: usize = 0;
    proof {
        assert(sv.skip(0) =~= sv);
    }
    while i < s.len()
        invariant
            i <= sv.len(),
            base + escaped(sv) == out@ + escaped(sv.skip(i as int)),
        decreases sv.len() - i,
    {
        let ghost before = out@;
        let b = s[i];
        if b == 34 {
            out.push(92);
            out.push(34);
        } else if b == 92 {
            out.push(92);
            out.push(92);
        } else if b == 8 {
            out.push(92);
            out.push(98);
        } else if b == 9 {
            out.push(92);
            out.push(116);
        } else if b == 10 {
            out.push(92);
            out.push(110);
        } else if b == 12 {
            out.push(92);
            out.push(102);
        } else if b == 13 {
            out.push(92);
            out.push(114);
        } else if b < 32 {
            out.push(92);
            out.push(117);
            out.push(48);
            out.push(48);
            out.push(hex_u8(b / 16));
            out.push(hex_u8(b % 16));
        } else {
            out.push(b);
        }
        proof {
            assert(out@ =~= before + escaped_byte(sv[i as int]));
            assert(escaped(sv.skip(i as int)) == escaped_byte(sv[i as int]) + escaped(
                sv.skip(i as int).skip(1),
            ));
            assert(sv.skip(i as int).skip(1) =~= sv.skip(i as int + 1));
            assert((before + escaped_byte(sv[i as int])) + escaped(sv.skip(i as int + 1)) =~= before
                + (escaped_byte(sv[i as int]) + escaped(sv.skip(i as int + 1))));
        }
        i += 1;
    }
    proof {
        assert(sv.skip(sv.len() as int) =~= Seq::<u8>::empty());
        assert(out@ + Seq::<u8>::empty() =~= out@);
    }
}

/// Appends the JSON string literal for `s` to `out`.
fn push_quoted(out: &mut Vec<u8>, s: &Vec<u8>)
    ensures
        final(out)@ == old(out)@ + quoted(s@),
{
    let ghost base = out@;
    out.push(34);
    push_escaped(out, s);
    out.push(34);
    proof {
        assert(out@ =~= base + quoted(s@));
    }
}

/// Appends the line break and indentation for the given depth.
#[verifier::loop_isolation(false)]
fn push_nl_indent(out: &mut Vec<u8>, pretty: bool, depth: usize)
    ensures
        final(out)@ == old(out)@ + nl_indent(pretty, depth as int),
{
    if !pretty {
        proof {
            assert(out@ + nl_indent(pretty, depth as int) =~= out@);
        }
        return ;
    }
    let ghost base = out@;
    out.push(10);
    proof {
        assert(out@ =~= base + nl_indent(pretty, 0));
    }
    let mut j: usize = 0;
    while j < depth
        invariant
            j <= depth,
            out@ == base + nl_indent(pretty, j as int),
        decreases depth - j,
    {
        let ghost before = out@;
        out.push(32);
        out.push(32);
        proof {
            assert(out@ =~= base + (nl_indent(pretty, j as int) + seq![32u8, 32u8]));
        }
        j += 1;
    }
}

fn push_colon(out: &mut Vec<u8>, pretty: bool)
    ensures
        final(out)@ == old(out)@ + colon(pretty),
{
    let ghost base = out@;
    out.push(58);
    if pretty {
        out.push(32);
    }
    proof {
        assert(out@ =~= base + colon(pretty));
    }
}

fn push_true(out: &mut Vec<u8>)
    ensures
        final(out)@ == old(out)@ + true_lit(),
{
    let ghost base = out@;
    out.push(116);
    out.push(114);
    out.push(117);
    out.push(101);
    proof {
        assert(out@ =~= base + true_lit());
    }
}

/// Appends one rendered entry: the array or object of its names.
#[verifier::loop_isolation(false)]
#[verifier::rlimit(100)]
fn push_states(out: &mut Vec<u8>, names: &Vec<Vec<u8>>, assoc: bool, pretty: bool, depth: usize)
    requires
        depth < 100,
    ensures
        final(out)@ == old(out)@ + states_json(seq_views(names@), assoc, pretty, depth as int),
{
    let ghost items = entry_items(seq_views(names@), assoc, pretty);
    let ghost base = out@;
    let ghost sep = seq![44u8] + nl_indent(pretty, depth as int + 1);
    let open: u8 = if assoc {
        123
    } else {
        91
    };
    let close: u8 = if assoc {
        125
    } else {
        93
    };
    out.push(open);
    let mut i: usize = 0;
    while i < names.len()
        invariant
            i <= names@.len(),
            items.len() == names@.len(),
            i == 0 ==> out@ == base + seq![open],
            i >= 1 ==> out@ == base + seq![open] + nl_indent(pretty, depth as int + 1) + joined(
                items.take(i as int),
                sep,
            ),
        decreases names@.len() - i,
    {
        if i == 0 {
            push_nl_indent(out, pretty, depth + 1);
        } else {
            out.push(44);
            push_nl_indent(out, pretty, depth + 1);
        }
        let ghost mid = out@;
        push_quoted(out, &names[i]);
        if assoc {
            push_colon(out, pretty);
            push_true(out);
        }
        proof {
            assert(seq_views(names@)[i as int] == names@[i as int]@);
            assert(out@ =~= mid + items[i as int]);
            if i == 0 {
                assert(items.take(1)[0] == items[0]);
                assert(joined(items.take(1), sep) == items[0]);
                assert(out@ =~= base + seq![open] + nl_indent(pretty, depth as int + 1) + joined(
                    items.take(1),
                    sep,
                ));
            } else {
                lemma_joined_snoc(items.take(i as int), items[i as int], sep);
                assert(items.take(i as int).push(items[i as int]) =~= items.take(i as int + 1));
                assert(out@ =~= base + seq![open] + nl_indent(pretty, depth as int + 1) + joined(
                    items.take(i as int + 1),
                    sep,
                ));
            }
        }
        i += 1;
    }
    if names.len() == 0 {
        out.push(close);
        proof {
            assert(out@ =~= base + seq![open, close]);
        }
        return ;
    }
    push_nl_indent(out, pretty, depth);
    out.push(close);
    proof {
        assert(items.take(items.len() as int) =~= items);
        assert(out@ =~= base + states_json(seq_views(names@), assoc, pretty, depth as int));
    }
}

/// Appends the `icons` object: every entry of the index, in key order.
#[verifier::loop_isolation(false)]
#[verifier::rlimit(100)]
fn push_icons(out: &mut Vec<u8>, icons: &IconIndex, pretty: bool)
    ensures
        final(out)@ == old(out)@ + wrapped(
            icons_items(icons.entries@, pretty),
            123u8,
            125u8,
            pretty,
            1,
        ),
{
    let ghost items = icons_items(icons.entries@, pretty);
    let ghost base = out@;
    let ghost sep = seq![44u8] + nl_indent(pretty, 2);
    out.push(123);
    let mut i: usize = 0;
    while i < icons.entries.len()
        invariant
            i <= icons.entries@.len(),
            items.len() == icons.entries@.len(),
            i == 0 ==> out@ == base + seq![123u8],
            i >= 1 ==> out@ == base + seq![123u8] + nl_indent(pretty, 2) + joined(
                items.take(i as int),
                sep,
            ),
        decreases icons.entries@.len() - i,
    {
        if i == 0 {
            push_nl_indent(out, pretty, 2);
        } else {
            out.push(44);
            push_nl_indent(out, pretty, 2);
        }
        let ghost mid = out@;
        push_quoted(out, &icons.entries[i].path);
        push_colon(out, pretty);
        match &icons.entries[i].states {
            IconStates::Array(v) => push_states(out, v, false, pretty, 2),
            IconStates::Assoc(v) => push_states(out, v, true, pretty, 2),
        }
        proof {
            assert(out@ =~= mid + items[i as int]);
            if i == 0 {
                assert(items.take(1)[0] == items[0]);
                assert(joined(items.take(1), sep) == items[0]);
                assert(out@ =~= base + seq![123u8] + nl_indent(pretty, 2) + joined(
                    items.take(1),
                    sep,
                ));
            } else {
                lemma_joined_snoc(items.take(i as int), items[i as int], sep);
                assert(items.take(i as int).push(items[i as int]) =~= items.take(i as int + 1));
                assert(out@ =~= base + seq![123u8] + nl_indent(pretty, 2) + joined(
                    items.take(i as int + 1),
                    sep,
                ));
            }
        }
        i += 1;
    }
    if icons.entries.len() == 0 {
        out.push(125);
        proof {
            assert(out@ =~= base + seq![123u8, 125u8]);
        }
        return ;
    }
    push_nl_indent(out, pretty, 1);
    out.push(125);
    proof {
        assert(items.take(items.len() as int) =~= items);
        assert(out@ =~= base + wrapped(items, 123u8, 125u8, pretty, 1));
    }
}

/// Renders the whole document as JSON bytes, compact or pretty.
#[verifier::rlimit(100)]
pub fn emit_document(doc: &Document, pretty: bool) -> (out: Vec<u8>)
    ensures
        out@ == document_json(*doc, pretty),
{
    let mut out: Vec<u8> = Vec::new();
    let ghost item1 = revision_key() + colon(pretty) + revision_json(doc.revision);
    let ghost item2 = icons_key() + colon(pretty) + wrapped(
        icons_items(doc.icons.entries@, pretty),
        123u8,
        125u8,
        pretty,
        1,
    );
    out.push(123);
    push_nl_indent(&mut out, pretty, 1);
    out.push(34);
    out.push(114);
    out.push(101);
    out.push(118);
    out.push(105);
    out.push(115);
    out.push(105);
    out.push(111);
    out.push(110);
    out.push(34);
    push_colon(&mut out, pretty);
    let ghost after_rev_key = out@;
    match &doc.revision {
        Option::None => {
            out.push(110);
            out.push(117);
            out.push(108);
            out.push(108);
            proof {
                assert(out@ =~= after_rev_key + null_lit());
            }
        },
        Option::Some(rev) => {
            push_quoted(&mut out, rev);
        },
    }
    out.push(44);
    push_nl_indent(&mut out, pretty, 1);
    out.push(34);
    out.push(105);
    out.push(99);
    out.push(111);
    out.push(110);
    out.push(115);
    out.push(34);
    push_colon(&mut out, pretty);
    push_icons(&mut out, &doc.icons, pretty);
    push_nl_indent(&mut out, pretty, 0);
    out.push(125);
    proof {
        let items = seq![item1, item2];
        let sep = seq![44u8] + nl_indent(pretty, 1);
        assert(items.skip(1) =~= seq![item2]);
        assert(joined(seq![item2], sep) == item2);
        assert(joined(items, sep) == item1 + sep + item2);
        assert(out@ =~= seq![123u8] + nl_indent(pretty, 1) + joined(items, sep) + nl_indent(
            pretty,
            0,
        ) + seq![125u8]);
    }
    out
}

} // verus!
