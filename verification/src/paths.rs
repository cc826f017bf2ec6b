//! Relative-path handling: the `.dmi` extension filter and the
//! forward-slash normalization of emitted keys.

use vstd::prelude::*;

verus! {

/// The byte suffix `.dmi`.
pub open spec fn dmi_suffix() -> Seq<u8> {
    seq![46u8, 100u8, 109u8, 105u8]
}

/// `p` with every backslash replaced by a forward slash.
pub open spec fn normalized(p: Seq<u8>) -> Seq<u8> {
    p.map_values(|b: u8| if b == 92 { 47u8 } else { b })
}

pub open spec fn no_backslash(p: Seq<u8>) -> bool {
    forall|i: int| 0 <= i < p.len() ==> #[trigger] p[i] != 92
}

/// Ends with `.dmi` and has at least one byte before that suffix.
pub open spec fn ends_with_dmi(p: Seq<u8>) -> bool {
    p.len() >= 5 && p.subrange(p.len() - 4, p.len() as int) == dmi_suffix()
}

/// Start of the file name: the index right after the last `/` of `p` at or
/// before position `i`.
pub open spec fn file_name_start(p: Seq<u8>, i: int) -> int
    decreases i,
{
    if i <= 0 {
        0
    } else if 0 < i <= p.len() && p[i - 1] == 47 {
        i
    } else {
        file_name_start(p, i - 1)
    }
}

/// The file name of a path: everything after its last `/`.
pub open spec fn file_name(p: Seq<u8>) -> Seq<u8> {
    p.skip(file_name_start(p, p.len() as int))
}

/// Whether a path names a file whose extension is exactly `dmi`: the file
/// name ends with `.dmi` and does not start at that dot.
pub open spec fn has_dmi_ext(p: Seq<u8>) -> bool {
    ends_with_dmi(file_name(p))
}

pub proof fn lemma_file_name_start_bounds(p: Seq<u8>, i: int)
    requires
        0 <= i <= p.len(),
    ensures
        0 <= file_name_start(p, i) <= i,
    decreases i,
{
    if i > 0 && p[i - 1] != 47 {
        lemma_file_name_start_bounds(p, i - 1);
    }
}

/// A filtered path keeps its `.dmi` suffix and loses every backslash when
/// it is normalized.
pub proof fn lemma_normalized_key(p: Seq<u8>)
    requires
        has_dmi_ext(p),
    ensures
        no_backslash(normalized(p)),
        ends_with_dmi(normalized(p)),
        normalized(p).len() == p.len(),
{
    lemma_file_name_start_bounds(p, p.len() as int);
    let n = file_name(p);
    let s = file_name_start(p, p.len() as int);
    assert(n.len() == p.len() - s);
    assert forall|k: int| 0 <= k < 4 implies p[p.len() - 4 + k] == dmi_suffix()[k] by {
        assert(n[n.len() - 4 + k] == p[s + (n.len() - 4 + k)]);
        assert(n.subrange(n.len() - 4, n.len() as int)[k] == n[n.len() - 4 + k]);
    }
    assert(normalized(p).subrange(normalized(p).len() - 4, normalized(p).len() as int)
        =~= dmi_suffix());
}

/// Replaces every backslash with a forward slash.
pub fn normalize_separators(p: &Vec<u8>) -> (r: Vec<u8>)
    ensures
        r@ == normalized(p@),
{
    let mut r: Vec<u8> = Vec::new();
    let mut i: usize = 0;
    while i < p.len()
        invariant
            i <= p@.len(),
            r@.len() == i,
            forall|j: int| 0 <= j < i ==> r@[j] == normalized(p@)[j],
        decreases p@.len() - i,
    {
        let b = p[i];
        if b == 92 {
            r.push(47);
        } else {
            r.push(b);
        }
        i += 1;
    }
    proof {
        assert(r@ =~= normalized(p@));
    }
    r
}

/// Whether the path passes the walker's filter: its file name has the exact
/// extension `dmi`.
#[verifier::loop_isolation(false)]
pub fn has_dmi_extension(p: &Vec<u8>) -> (r: bool)
    ensures
        r == has_dmi_ext(p@),
{
    let mut s: usize = p.len();
    while s > 0 && p[s - 1] != 47
        invariant
            s <= p@.len(),
            file_name_start(p@, p@.len() as int) == file_name_start(p@, s as int),
        decreases s,
    {
        s -= 1;
    }
    let ghost n = file_name(p@);
    proof {
        assert(file_name_start(p@, p@.len() as int) == s);
        assert(n =~= p@.skip(s as int));
        assert(n.len() == p@.len() - s);
    }
    if p.len() - s < 5 {
        return false;
    }
    let m = p.len();
    if p[m - 4] == 46 && p[m - 3] == 100 && p[m - 2] == 109 && p[m - 1] == 105 {
        proof {
            assert forall|k: int| 0 <= k < 4 implies n.subrange(n.len() - 4, n.len() as int)[k]
                == dmi_suffix()[k] by {
                assert(n.subrange(n.len() - 4, n.len() as int)[k] == n[n.len() - 4 + k]);
                assert(n[n.len() - 4 + k] == p@[s + (n.len() - 4 + k)]);
            }
            assert(n.subrange(n.len() - 4, n.len() as int) =~= dmi_suffix());
        }
        return true;
    }
    proof {
        if has_dmi_ext(p@) {
            assert forall|k: int| 0 <= k < 4 implies p@[p@.len() - 4 + k] == dmi_suffix()[k] by {
                assert(n.subrange(n.len() - 4, n.len() as int)[k] == n[n.len() - 4 + k]);
                assert(n[n.len() - 4 + k] == p@[s + (n.len() - 4 + k)]);
            }
            assert(p@[m - 4] == 46);
            assert(p@[m - 3] == 100);
            assert(p@[m - 2] == 109);
            assert(p@[m - 1] == 105);
            assert(false);
        }
    }
    false
}

} // verus!
