//! The neighbourhood of a position: the candidate coordinates along one axis
//! and their pairing into positions.

use vstd::prelude::*;
use vstd::arithmetic::div_mod::lemma_fundamental_div_mod_converse;

verus! {

/// The coordinates of the three-cell stretch around `c` that lie on an axis of
/// `len` cells, lowest offset first. With `wrap`, the cell before coordinate 0
/// is the last one and the cell after the last one is coordinate 0.
pub open spec fn candidates(c: int, len: int, wrap: bool) -> Seq<int> {
    let before = if 0 < c <= len {
        seq![c - 1]
    } else if c == 0 && wrap && len > 0 {
        seq![len - 1]
    } else {
        Seq::empty()
    };
    let at = if 0 <= c < len {
        seq![c]
    } else {
        Seq::empty()
    };
    let after = if 0 <= c && c + 1 < len {
        seq![c + 1]
    } else if 0 <= c && c + 1 == len && wrap {
        seq![0int]
    } else {
        Seq::empty()
    };
    before + at + after
}

/// The coordinates of `s` as integers.
pub open spec fn as_ints(s: Seq<usize>) -> Seq<int> {
    s.map_values(|c: usize| c as int)
}

/// The coordinates around `c`, and `c` itself, that lie on an axis of `len`
/// cells, lowest offset first; with `wrap`, the two ends of the axis are
/// adjacent.
pub fn axis_candidates(c: usize, len: usize, wrap: bool) -> (found: Vec<usize>)
    ensures
        as_ints(found@) == candidates(c as int, len as int, wrap),
{
    let mut found: Vec<usize> = Vec::new();
    if c > 0 {
        if c <= len {
            found.push(c - 1);
        }
    } else if wrap && len > 0 {
        found.push(len - 1);
    }
    if c < len {
        found.push(c);
        if c + 1 < len {
            found.push(c + 1);
        } else if wrap {
            found.push(0);
        }
    }
    assert(as_ints(found@) =~= candidates(c as int, len as int, wrap));
    found
}

/// Every pair of an element of `xs` with an element of `ys`: the pairs of
/// `xs[0]` first, each run in the order of `ys`.
pub open spec fn pairs(xs: Seq<int>, ys: Seq<int>) -> Seq<(int, int)> {
    Seq::new(
        xs.len() * ys.len(),
        |k: int| (xs[k / (ys.len() as int)], ys[k % (ys.len() as int)]),
    )
}

/// The test that keeps every position but `center`.
pub open spec fn differs_from(center: (int, int)) -> spec_fn((int, int)) -> bool {
    |p: (int, int)| p != center
}

/// At most three candidates, each of them on the axis; `c` is one of them
/// when it is on the axis.
pub proof fn lemma_candidates(c: int, len: int, wrap: bool)
    ensures
        candidates(c, len, wrap).len() <= 3,
        forall|k: int|
            0 <= k < candidates(c, len, wrap).len() ==> 0 <= #[trigger] candidates(
                c,
                len,
                wrap,
            )[k] < len,
        0 <= c < len ==> candidates(c, len, wrap).contains(c),
{
    let s = candidates(c, len, wrap);
    if 0 <= c < len {
        if 0 < c || wrap {
            assert(s[1] == c);
        } else {
            assert(s[0] == c);
        }
    }
}

/// The pair of `xs[a]` and `ys[b]` stands at `a * ys.len() + b`.
pub proof fn lemma_pairs_index(xs: Seq<int>, ys: Seq<int>, a: int, b: int)
    requires
        0 <= a < xs.len(),
        0 <= b < ys.len(),
    ensures
        0 <= a * ys.len() + b < pairs(xs, ys).len(),
        pairs(xs, ys)[a * ys.len() + b] == (xs[a], ys[b]),
{
    let n = xs.len() as int;
    let m = ys.len() as int;
    assert(0 <= a * m + b < n * m) by (nonlinear_arith)
        requires
            0 <= a < n,
            0 <= b < m,
    ;
    lemma_fundamental_div_mod_converse(a * m + b, m, a, b);
}

/// A sequence with an element that fails the test loses at least that
/// element when filtered.
pub proof fn lemma_filter_drops<A>(s: Seq<A>, pred: spec_fn(A) -> bool, i: int)
    requires
        0 <= i < s.len(),
        !pred(s[i]),
    ensures
        s.filter(pred).len() < s.len(),
    decreases s.len(),
{
    reveal(Seq::filter);
    let rest = s.drop_last();
    if i == s.len() - 1 {
        rest.lemma_filter_len(pred);
    } else {
        lemma_filter_drops(rest, pred, i);
    }
}

/// An element that passes the test is still there after filtering.
pub proof fn lemma_filter_keeps<A>(s: Seq<A>, pred: spec_fn(A) -> bool, i: int)
    requires
        0 <= i < s.len(),
        pred(s[i]),
    ensures
        s.filter(pred).contains(s[i]),
    decreases s.len(),
{
    reveal(Seq::filter);
    let rest = s.drop_last();
    if i == s.len() - 1 {
        let kept = rest.filter(pred).push(s.last());
        assert(kept[kept.len() - 1] == s[i]);
    } else {
        lemma_filter_keeps(rest, pred, i);
        let j = choose|j: int| 0 <= j < rest.filter(pred).len() && rest.filter(pred)[j] == s[i];
        if pred(s.last()) {
            assert(rest.filter(pred).push(s.last())[j] == s[i]);
        }
    }
}

/// Whatever is left after filtering passes the test and was there before.
pub proof fn lemma_filter_members<A>(s: Seq<A>, pred: spec_fn(A) -> bool)
    ensures
        forall|k: int|
            0 <= k < s.filter(pred).len() ==> pred(#[trigger] s.filter(pred)[k]) && s.contains(
                s.filter(pred)[k],
            ),
    decreases s.len(),
{
    reveal(Seq::filter);
    if s.len() > 0 {
        let rest = s.drop_last();
        lemma_filter_members(rest, pred);
        assert forall|k: int| 0 <= k < s.filter(pred).len() implies pred(
            #[trigger] s.filter(pred)[k],
        ) && s.contains(s.filter(pred)[k]) by {
            if k < rest.filter(pred).len() {
                let e = rest.filter(pred)[k];
                let j = choose|j: int| 0 <= j < rest.len() && rest[j] == e;
                assert(s[j] == e);
            } else {
                assert(s[s.len() - 1] == s.filter(pred)[k]);
            }
        }
    }
}

} // verus!
