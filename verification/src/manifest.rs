//! The DMI manifest mini-language.
//!
//! The decompressed payload of a zTXt chunk is line-oriented text. Lines are
//! read in order until one contains the terminator `# END DMI`; every other
//! line contributes a state name exactly when, after trimming ASCII
//! whitespace, it starts with `state = "` and ends with `"`. The name is the
//! verbatim byte string between those delimiters.

use vstd::prelude::*;

verus! {

/// The terminator marker `# END DMI`.
pub open spec fn marker() -> Seq<u8> {
    seq![35u8, 32u8, 69u8, 78u8, 68u8, 32u8, 68u8, 77u8, 73u8]
}

/// The opening delimiter `state = "` of a state line.
pub open spec fn state_prefix() -> Seq<u8> {
    seq![115u8, 116u8, 97u8, 116u8, 101u8, 32u8, 61u8, 32u8, 34u8]
}

pub open spec fn is_ascii_ws(b: u8) -> bool {
    b == 32 || b == 9 || b == 10 || b == 12 || b == 13
}

/// Number of bytes from `i` up to (not including) the next line feed.
pub open spec fn line_len(p: Seq<u8>, i: int) -> nat
    decreases p.len() - i,
{
    if i < 0 || i >= p.len() {
        0
    } else if p[i] == 10 {
        0
    } else {
        1 + line_len(p, i + 1)
    }
}

/// Number of leading whitespace bytes of `l` from position `i` on.
pub open spec fn ws_prefix_len(l: Seq<u8>, i: int) -> nat
    decreases l.len() - i,
{
    if i < 0 || i >= l.len() {
        0
    } else if is_ascii_ws(l[i]) {
        1 + ws_prefix_len(l, i + 1)
    } else {
        0
    }
}

/// Number of trailing whitespace bytes of `l` strictly before position `i`.
pub open spec fn ws_suffix_len(l: Seq<u8>, i: int) -> nat
    decreases i,
{
    if i <= 0 || i > l.len() {
        0
    } else if is_ascii_ws(l[i - 1]) {
        1 + ws_suffix_len(l, i - 1)
    } else {
        0
    }
}

/// `l` with leading and trailing ASCII whitespace removed.
pub open spec fn trimmed(l: Seq<u8>) -> Seq<u8> {
    let a = ws_prefix_len(l, 0) as int;
    let b = ws_suffix_len(l, l.len() as int) as int;
    if a + b <= l.len() {
        l.subrange(a, l.len() - b)
    } else {
        Seq::empty()
    }
}

pub open spec fn has_marker_at(l: Seq<u8>, k: int) -> bool {
    0 <= k && k + 9 <= l.len() && l.subrange(k, k + 9) == marker()
}

/// Whether the line contains the terminator `# END DMI` anywhere.
pub open spec fn line_has_marker(l: Seq<u8>) -> bool {
    exists|k: int| has_marker_at(l, k)
}

/// The state name a line contributes, if any: the bytes between `state = "`
/// and the final `"` of the trimmed line.
pub open spec fn state_of_line(l: Seq<u8>) -> Option<Seq<u8>> {
    let t = trimmed(l);
    if t.len() >= 10 && t.subrange(0, 9) == state_prefix() && t[t.len() - 1] == 34 {
        Some(t.subrange(9, t.len() - 1))
    } else {
        None
    }
}

/// The state names contributed by the payload from position `i` on, stopping
/// at the first line that contains the terminator.
pub open spec fn states_from(p: Seq<u8>, i: int) -> Seq<Seq<u8>>
    decreases p.len() - i,
{
    if i < 0 || i > p.len() {
        Seq::empty()
    } else {
        let e = i + line_len(p, i);
        let line = p.subrange(i, e);
        if line_has_marker(line) {
            Seq::empty()
        } else {
            let rest = if e + 1 <= p.len() {
                states_from(p, e + 1)
            } else {
                Seq::<Seq<u8>>::empty()
            };
            match state_of_line(line) {
                Some(s) => seq![s] + rest,
                None => rest,
            }
        }
    }
}

/// All state names of one decompressed zTXt payload, in source order.
pub open spec fn payload_states(p: Seq<u8>) -> Seq<Seq<u8>> {
    states_from(p, 0)
}

/// A line made of the terminator alone, on a line of its own.
pub open spec fn terminator_line() -> Seq<u8> {
    seq![10u8] + marker() + seq![10u8]
}

proof fn lemma_line_len_agree(x: Seq<u8>, y: Seq<u8>, i: int, m: int)
    requires
        0 <= i <= m,
        m < x.len(),
        m < y.len(),
        forall|j: int| i <= j <= m ==> x[j] == y[j],
        x[m] == 10,
    ensures
        line_len(x, i) == line_len(y, i),
        i + line_len(x, i) <= m,
    decreases m - i,
{
    if x[i] != 10 {
        lemma_line_len_agree(x, y, i + 1, m);
    }
}

proof fn lemma_terminator_from(p: Seq<u8>, q: Seq<u8>, i: int)
    requires
        0 <= i <= p.len() + 1,
    ensures
        states_from(p + terminator_line() + q, i) == states_from(p + terminator_line(), i),
    decreases p.len() + 2 - i,
{
    let a = p + terminator_line() + q;
    let b = p + terminator_line();
    let m = p.len() as int;
    assert(a[m] == 10 && b[m] == 10);
    if i <= p.len() {
        lemma_line_len_agree(a, b, i, m);
        lemma_line_len_agree(b, a, i, m);
        let e = i + line_len(a, i);
        assert(a.subrange(i, e) =~= b.subrange(i, e));
        let line = a.subrange(i, e);
        if !line_has_marker(line) {
            lemma_terminator_from(p, q, e + 1);
            assert(e < a.len() && e < b.len());
        }
    } else {
        // i is the start of the terminator's own line in both sequences.
        reveal_with_fuel(line_len, 12);
        assert forall|k: int| 0 <= k < 9 implies a[i + k] == marker()[k] && b[i + k]
            == marker()[k] by {
            assert(terminator_line()[1 + k] == marker()[k]);
            assert(a[m + 1 + k] == terminator_line()[1 + k]);
            assert(b[m + 1 + k] == terminator_line()[1 + k]);
        }
        assert(a[i + 9] == terminator_line()[10]);
        assert(b[i + 9] == terminator_line()[10]);
        assert(line_len(a, i) == 9);
        assert(line_len(b, i) == 9);
        let la = a.subrange(i, i + 9);
        let lb = b.subrange(i, i + 9);
        assert(la =~= marker());
        assert(lb =~= marker());
        assert(la.subrange(0, 9) =~= marker());
        assert(lb.subrange(0, 9) =~= marker());
        assert(has_marker_at(la, 0));
        assert(has_marker_at(lb, 0));
        assert(states_from(a, i) =~= Seq::<Seq<u8>>::empty());
        assert(states_from(b, i) =~= Seq::<Seq<u8>>::empty());
    }
}

/// The terminator is honored: nothing that follows a line holding
/// `# END DMI` on its own contributes any state to the payload.
pub proof fn lemma_terminator_stops(p: Seq<u8>, q: Seq<u8>)
    ensures
        payload_states(p + terminator_line() + q) == payload_states(p + terminator_line()),
{
    lemma_terminator_from(p, q, 0);
}

pub proof fn lemma_line_len_bound(p: Seq<u8>, i: int)
    requires
        0 <= i <= p.len(),
    ensures
        i + line_len(p, i) <= p.len(),
    decreases p.len() - i,
{
    if i < p.len() && p[i] != 10 {
        lemma_line_len_bound(p, i + 1);
    }
}

pub proof fn lemma_ws_prefix_char(l: Seq<u8>, i: int)
    requires
        0 <= i <= l.len(),
    ensures
        i + ws_prefix_len(l, i) <= l.len(),
        forall|j: int| i <= j < i + ws_prefix_len(l, i) ==> is_ascii_ws(#[trigger] l[j]),
        i + ws_prefix_len(l, i) < l.len() ==> !is_ascii_ws(l[i + ws_prefix_len(l, i)]),
    decreases l.len() - i,
{
    if i < l.len() && is_ascii_ws(l[i]) {
        lemma_ws_prefix_char(l, i + 1);
    }
}

pub proof fn lemma_ws_suffix_char(l: Seq<u8>, i: int)
    requires
        0 <= i <= l.len(),
    ensures
        ws_suffix_len(l, i) <= i,
        forall|j: int| i - ws_suffix_len(l, i) <= j < i ==> is_ascii_ws(#[trigger] l[j]),
        ws_suffix_len(l, i) < i ==> !is_ascii_ws(l[i - ws_suffix_len(l, i) - 1]),
    decreases i,
{
    if i > 0 && is_ascii_ws(l[i - 1]) {
        lemma_ws_suffix_char(l, i - 1);
    }
}

/// Finds the end of the line that starts at `i`.
pub fn line_end(p: &Vec<u8>, i: usize) -> (e: usize)
    requires
        i <= p.len(),
    ensures
        i <= e <= p@.len(),
        e == i + line_len(p@, i as int),
{
    let mut j: usize = i;
    while j < p.len() && p[j] != 10u8
        invariant
            i <= j <= p@.len(),
            line_len(p@, i as int) == (j - i) + line_len(p@, j as int),
        decreases p@.len() - j,
    {
        j += 1;
    }
    j
}

/// Copies the byte range `[a, b)` out of `p`.
pub fn copy_range(p: &Vec<u8>, a: usize, b: usize) -> (r: Vec<u8>)
    requires
        a <= b <= p.len(),
    ensures
        r@ == p@.subrange(a as int, b as int),
{
    let mut r: Vec<u8> = Vec::new();
    let mut j: usize = a;
    proof {
        assert(r@ =~= p@.subrange(a as int, a as int));
    }
    while j < b
        invariant
            a <= j <= b <= p@.len(),
            r@ == p@.subrange(a as int, j as int),
        decreases b - j,
    {
        r.push(p[j]);
        proof {
            assert(p@.subrange(a as int, (j + 1) as int) =~= p@.subrange(a as int, j as int).push(
                p@[j as int],
            ));
        }
        j += 1;
    }
    r
}

/// Whether the line contains the terminator `# END DMI`.
#[verifier::loop_isolation(false)]
pub fn contains_marker(l: &Vec<u8>) -> (r: bool)
    ensures
        r == line_has_marker(l@),
{
    if l.len() < 9 {
        proof {
            assert forall|k: int| !has_marker_at(l@, k) by {
                if 0 <= k && k + 9 <= l@.len() {
                    assert(false);
                }
            }
        }
        return false;
    }
    let mut k: usize = 0;
    while k <= l.len() - 9
        invariant
            k <= l@.len(),
            forall|k2: int| 0 <= k2 < k ==> !has_marker_at(l@, k2),
        decreases l@.len() - k,
    {
        if l[k] == 35 && l[k + 1] == 32 && l[k + 2] == 69 && l[k + 3] == 78 && l[k + 4] == 68
            && l[k + 5] == 32 && l[k + 6] == 68 && l[k + 7] == 77 && l[k + 8] == 73 {
            proof {
                assert(l@.subrange(k as int, k as int + 9) =~= marker());
                assert(has_marker_at(l@, k as int));
            }
            return true;
        }
        proof {
            if has_marker_at(l@, k as int) {
                assert forall|t: int| 0 <= t < 9 implies l@[k + t] == marker()[t] by {
                    assert(l@.subrange(k as int, k as int + 9)[t] == l@[k + t]);
                }
                assert(l@[k as int] == 35);
                assert(l@[k + 1] == 32);
                assert(l@[k + 2] == 69);
                assert(l@[k + 3] == 78);
                assert(l@[k + 4] == 68);
                assert(l@[k + 5] == 32);
                assert(l@[k + 6] == 68);
                assert(l@[k + 7] == 77);
                assert(l@[k + 8] == 73);
                assert(false);
            }
        }
        k += 1;
    }
    proof {
        assert forall|k2: int| !has_marker_at(l@, k2) by {
            if 0 <= k2 && k2 + 9 <= l@.len() {
                assert(k2 < k);
            }
        }
    }
    false
}

/// Trims the line and, if it is a state line, returns the name between the
/// quotes.
#[verifier::loop_isolation(false)]
pub fn line_state(l: &Vec<u8>) -> (r: Option<Vec<u8>>)
    ensures
        match r {
            Some(s) => state_of_line(l@) == Some(s@),
            None => state_of_line(l@) is None,
        },
{
    proof {
        lemma_ws_prefix_char(l@, 0);
        lemma_ws_suffix_char(l@, l@.len() as int);
    }
    let mut lo: usize = 0;
    while lo < l.len() && is_ws(l[lo])
        invariant
            lo <= l@.len(),
            ws_prefix_len(l@, 0) == lo + ws_prefix_len(l@, lo as int),
        decreases l@.len() - lo,
    {
        lo += 1;
    }
    if lo == l.len() {
        // The line is all whitespace: the trimmed line is shorter than any
        // state line, so there is no state.
        proof {
            assert(ws_prefix_len(l@, 0) == l@.len());
            assert(trimmed(l@).len() < 10);
        }
        return None;
    }
    let mut hi: usize = l.len();
    while hi > lo && is_ws(l[hi - 1])
        invariant
            lo <= hi <= l@.len(),
            ws_suffix_len(l@, l@.len() as int) == (l@.len() - hi) + ws_suffix_len(l@, hi as int),
        decreases hi,
    {
        hi -= 1;
    }
    proof {
        // The scan from the right stopped at a non-whitespace byte; it cannot
        // reach lo, because l[lo] is not whitespace.
        assert(!is_ascii_ws(l@[lo as int]));
        if hi == lo {
            assert(ws_suffix_len(l@, l@.len() as int) >= l@.len() - lo);
            assert(is_ascii_ws(l@[lo as int]));
            assert(false);
        }
        assert(ws_suffix_len(l@, hi as int) == 0);
        assert(ws_suffix_len(l@, l@.len() as int) == l@.len() - hi);
        assert(ws_prefix_len(l@, 0) == lo);
        assert(hi > lo);
        assert(trimmed(l@) == l@.subrange(lo as int, hi as int));
    }
    let t = copy_range(l, lo, hi);
    if t.len() < 10 {
        return None;
    }
    if t[0] == 115 && t[1] == 116 && t[2] == 97 && t[3] == 116 && t[4] == 101 && t[5] == 32 && t[6]
        == 61 && t[7] == 32 && t[8] == 34 && t[t.len() - 1] == 34 {
        proof {
            assert(t@.subrange(0, 9) =~= state_prefix());
        }
        let name = copy_range(&t, 9, t.len() - 1);
        return Some(name);
    }
    proof {
        if state_of_line(l@) is Some {
            assert forall|j: int| 0 <= j < 9 implies t@[j] == state_prefix()[j] by {
                assert(t@.subrange(0, 9)[j] == t@[j]);
            }
            assert(t@[0] == 115);
            assert(t@[1] == 116);
            assert(t@[2] == 97);
            assert(t@[3] == 116);
            assert(t@[4] == 101);
            assert(t@[5] == 32);
            assert(t@[6] == 61);
            assert(t@[7] == 32);
            assert(t@[8] == 34);
            assert(false);
        }
    }
    None
}

fn is_ws(b: u8) -> (r: bool)
    ensures
        r == is_ascii_ws(b),
{
    b == 32 || b == 9 || b == 10 || b == 12 || b == 13
}

/// Parses one decompressed zTXt payload and returns every state name in
/// source order, duplicates included, honoring the `# END DMI` terminator.
pub fn parse_states(payload: &Vec<u8>) -> (r: Vec<Vec<u8>>)
    ensures
        r@.map_values(|s: Vec<u8>| s@) == payload_states(payload@),
{
    let ghost p = payload@;
    let mut out: Vec<Vec<u8>> = Vec::new();
    let mut i: usize = 0;
    proof {
        assert(out@.map_values(|s: Vec<u8>| s@) =~= Seq::<Seq<u8>>::empty());
        assert(payload_states(p) == out@.map_values(|s: Vec<u8>| s@) + states_from(p, 0));
    }
    loop
        invariant
            i <= payload@.len(),
            p == payload@,
            payload_states(p) == out@.map_values(|s: Vec<u8>| s@) + states_from(p, i as int),
        decreases p.len() - i,
    {
        proof {
            lemma_line_len_bound(p, i as int);
        }
        let e = line_end(payload, i);
        let line = copy_range(payload, i, e);
        let ghost before = out@.map_values(|s: Vec<u8>| s@);
        if contains_marker(&line) {
            proof {
                assert(states_from(p, i as int) =~= Seq::<Seq<u8>>::empty());
                assert(before + Seq::<Seq<u8>>::empty() =~= before);
            }
            return out;
        }
        match line_state(&line) {
            Some(s) => {
                let ghost sv = s@;
                out.push(s);
                proof {
                    assert(out@.map_values(|x: Vec<u8>| x@) =~= before.push(sv));
                }
            },
            None => {},
        }
        proof {
            let rest = if e + 1 <= p.len() {
                states_from(p, e + 1)
            } else {
                Seq::<Seq<u8>>::empty()
            };
            match state_of_line(line@) {
                Some(s) => {
                    assert(states_from(p, i as int) == seq![s] + rest);
                    assert(before.push(s) + rest =~= before + (seq![s] + rest));
                },
                None => {
                    assert(states_from(p, i as int) == rest);
                },
            }
        }
        if e < payload.len() {
            i = e + 1;
        } else {
            proof {
                assert(out@.map_values(|s: Vec<u8>| s@) + Seq::<Seq<u8>>::empty() =~= out@
                    .map_values(|s: Vec<u8>| s@));
            }
            return out;
        }
    }
}

} // verus!
