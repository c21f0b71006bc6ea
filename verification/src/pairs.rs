use vstd::prelude::*;

verus! {

/// The order of std on pairs of integers: by the first, then by the second.
pub open spec fn pair_le(a: (i32, i32), b: (i32, i32)) -> bool {
    a.0 < b.0 || (a.0 == b.0 && a.1 <= b.1)
}

/// `t` with `x` put after the last of its trailing elements above `x`, counting from the end.
pub open spec fn insert_pair(t: Seq<(i32, i32)>, x: (i32, i32)) -> Seq<(i32, i32)>
    decreases t.len(),
{
    if t.len() == 0 {
        seq![x]
    } else if pair_le(t.last(), x) {
        t.push(x)
    } else {
        insert_pair(t.drop_last(), x).push(t.last())
    }
}

/// `s` in ascending order of `pair_le`, each element put in its place in turn.
pub open spec fn sorted_pairs(s: Seq<(i32, i32)>) -> Seq<(i32, i32)>
    decreases s.len(),
{
    if s.len() == 0 {
        s
    } else {
        insert_pair(sorted_pairs(s.drop_last()), s.last())
    }
}

pub open spec fn pairs_ascending(s: Seq<(i32, i32)>) -> bool {
    forall|i: int, j: int| 0 <= i < j < s.len() ==> pair_le(#[trigger] s[i], #[trigger] s[j])
}

proof fn lemma_insert_pair(t: Seq<(i32, i32)>, x: (i32, i32))
    ensures
        insert_pair(t, x).len() == t.len() + 1,
        forall|y: (i32, i32)| #[trigger] insert_pair(t, x).contains(y) <==> (t.contains(y) || y == x),
        pairs_ascending(t) ==> pairs_ascending(insert_pair(t, x)),
    decreases t.len(),
{
    let r = insert_pair(t, x);
    if t.len() == 0 {
        assert(r[0] == x);
    } else if pair_le(t.last(), x) {
        assert forall|y: (i32, i32)| #[trigger] r.contains(y) <==> (t.contains(y) || y == x) by {
            if r.contains(y) {
                let k = choose|k: int| 0 <= k < r.len() && r[k] == y;
                if k < t.len() {
                    assert(t[k] == y);
                }
            }
            if t.contains(y) {
                let k = choose|k: int| 0 <= k < t.len() && t[k] == y;
                assert(r[k] == y);
            }
            if y == x {
                assert(r[t.len() as int] == y);
            }
        }
        if pairs_ascending(t) {
            assert forall|i: int, j: int| 0 <= i < j < r.len() implies pair_le(#[trigger] r[i], #[trigger] r[j]) by {
                if j == t.len() {
                    assert(pair_le(t[i], t[t.len() - 1]) || i == t.len() - 1);
                }
            }
        }
    } else {
        let front = t.drop_last();
        let last = t.last();
        lemma_insert_pair(front, x);
        let f = insert_pair(front, x);
        assert forall|y: (i32, i32)| #[trigger] r.contains(y) <==> (t.contains(y) || y == x) by {
            if r.contains(y) {
                let k = choose|k: int| 0 <= k < r.len() && r[k] == y;
                if k < f.len() {
                    assert(f[k] == y);
                    assert(f.contains(y));
                    if front.contains(y) {
                        let m = choose|m: int| 0 <= m < front.len() && front[m] == y;
                        assert(t[m] == y);
                    }
                } else {
                    assert(t[t.len() - 1] == y);
                }
            }
            if t.contains(y) {
                let k = choose|k: int| 0 <= k < t.len() && t[k] == y;
                if k < front.len() {
                    assert(front[k] == y);
                    assert(f.contains(y));
                    let m = choose|m: int| 0 <= m < f.len() && f[m] == y;
                    assert(r[m] == y);
                } else {
                    assert(r[f.len() as int] == y);
                }
            }
            if y == x {
                assert(f.contains(x));
                let m = choose|m: int| 0 <= m < f.len() && f[m] == x;
                assert(r[m] == y);
            }
        }
        if pairs_ascending(t) {
            assert(pairs_ascending(front)) by {
                assert forall|i: int, j: int| 0 <= i < j < front.len() implies pair_le(#[trigger] front[i], #[trigger] front[j]) by {
                    assert(front[i] == t[i] && front[j] == t[j]);
                }
            }
            assert forall|i: int, j: int| 0 <= i < j < r.len() implies pair_le(#[trigger] r[i], #[trigger] r[j]) by {
                if j == f.len() {
                    assert(r[i] == f[i]);
                    assert(f.contains(f[i]));
                    if f[i] == x {
                        assert(!pair_le(last, x));
                    } else {
                        assert(front.contains(f[i]));
                        let m = choose|m: int| 0 <= m < front.len() && front[m] == f[i];
                        assert(pair_le(t[m], t[t.len() - 1]));
                    }
                } else {
                    assert(r[i] == f[i] && r[j] == f[j]);
                }
            }
        }
    }
}

/// Sorting keeps the elements and puts them in ascending order.
pub proof fn lemma_sorted_pairs(s: Seq<(i32, i32)>)
    ensures
        sorted_pairs(s).len() == s.len(),
        forall|y: (i32, i32)| #[trigger] sorted_pairs(s).contains(y) <==> s.contains(y),
        pairs_ascending(sorted_pairs(s)),
    decreases s.len(),
{
    if s.len() > 0 {
        let front = s.drop_last();
        lemma_sorted_pairs(front);
        lemma_insert_pair(sorted_pairs(front), s.last());
        assert forall|y: (i32, i32)| #[trigger] sorted_pairs(s).contains(y) <==> s.contains(y) by {
            if front.contains(y) {
                let m = choose|m: int| 0 <= m < front.len() && front[m] == y;
                assert(s[m] == y);
            }
            if s.contains(y) {
                let m = choose|m: int| 0 <= m < s.len() && s[m] == y;
                if m < front.len() {
                    assert(front[m] == y);
                } else {
                    assert(y == s.last());
                }
            }
        }
    }
}

fn pair_le_exec(a: (i32, i32), b: (i32, i32)) -> (r: bool)
    ensures
        r == pair_le(a, b),
{
    a.0 < b.0 || (a.0 == b.0 && a.1 <= b.1)
}

fn insert_pair_into(out: &mut Vec<(i32, i32)>, x: (i32, i32))
    ensures
        final(out)@ == insert_pair(old(out)@, x),
{
    let ghost t = out@;
    out.push(x);
    let mut j: usize = out.len() - 1;
    proof {
        assert(t.take(j as int) =~= t);
        assert(out@ =~= t.take(j as int).push(x) + t.skip(j as int));
        assert(insert_pair(t, x) =~= insert_pair(t.take(j as int), x) + t.skip(j as int));
    }
    while j > 0 && !pair_le_exec(out[j - 1], x)
        invariant
            j < out.len(),
            out.len() == t.len() + 1,
            out@ == t.take(j as int).push(x) + t.skip(j as int),
            insert_pair(t, x) == insert_pair(t.take(j as int), x) + t.skip(j as int),
        decreases j,
    {
        let prev = out[j - 1];
        proof {
            assert(prev == t[j - 1]);
            let tj = t.take(j as int);
            assert(tj.drop_last() =~= t.take(j - 1));
            assert(tj.last() == t[j - 1]);
            assert(!pair_le(tj.last(), x));
            assert(insert_pair(tj, x) == insert_pair(t.take(j - 1), x).push(t[j - 1]));
            assert(insert_pair(t.take(j - 1), x).push(t[j - 1]) + t.skip(j as int) =~= insert_pair(t.take(j - 1), x)
                + t.skip(j - 1));
        }
        out.set(j, prev);
        out.set(j - 1, x);
        j = j - 1;
        proof {
            assert(out@ =~= t.take(j as int).push(x) + t.skip(j as int));
        }
    }
    proof {
        let tj = t.take(j as int);
        if j == 0 {
            assert(tj.len() == 0);
            assert(insert_pair(tj, x) =~= seq![x]);
        } else {
            assert(tj.last() == t[j - 1]);
            assert(out@[j - 1] == t[j - 1]);
        }
    }
}

/// Sorts the pairs in ascending order, as std's sort does.
pub fn sort_pairs(v: &mut Vec<(i32, i32)>)
    ensures
        final(v)@ == sorted_pairs(old(v)@),
{
    let ghost s0 = v@;
    let mut out: Vec<(i32, i32)> = Vec::new();
    let mut i: usize = 0;
    while i < v.len()
        invariant
            v@ == s0,
            i <= v.len(),
            out@ == sorted_pairs(s0.take(i as int)),
        decreases v.len() - i,
    {
        proof {
            assert(s0.take(i + 1).drop_last() =~= s0.take(i as int));
        }
        insert_pair_into(&mut out, v[i]);
        i = i + 1;
    }
    proof {
        assert(s0.take(i as int) =~= s0);
    }
    *v = out;
}

/// The order of std on a cell (its `x`, then its `y`) paired with an id: by the cell, then by
/// the id.
pub open spec fn spot_le(a: ((i32, i32), i32), b: ((i32, i32), i32)) -> bool {
    a.0.0 < b.0.0 || (a.0.0 == b.0.0 && (a.0.1 < b.0.1 || (a.0.1 == b.0.1 && a.1 <= b.1)))
}

/// `t` with `x` put after the last of its trailing elements above `x`, counting from the end.
pub open spec fn insert_spot(t: Seq<((i32, i32), i32)>, x: ((i32, i32), i32)) -> Seq<((i32, i32), i32)>
    decreases t.len(),
{
    if t.len() == 0 {
        seq![x]
    } else if spot_le(t.last(), x) {
        t.push(x)
    } else {
        insert_spot(t.drop_last(), x).push(t.last())
    }
}

/// `s` in ascending order of `spot_le`, each element put in its place in turn.
pub open spec fn sorted_spots(s: Seq<((i32, i32), i32)>) -> Seq<((i32, i32), i32)>
    decreases s.len(),
{
    if s.len() == 0 {
        s
    } else {
        insert_spot(sorted_spots(s.drop_last()), s.last())
    }
}

pub open spec fn spots_ascending(s: Seq<((i32, i32), i32)>) -> bool {
    forall|i: int, j: int| 0 <= i < j < s.len() ==> spot_le(#[trigger] s[i], #[trigger] s[j])
}

proof fn lemma_insert_spot(t: Seq<((i32, i32), i32)>, x: ((i32, i32), i32))
    ensures
        insert_spot(t, x).len() == t.len() + 1,
        forall|y: ((i32, i32), i32)| #[trigger] insert_spot(t, x).contains(y) <==> (t.contains(y) || y == x),
        spots_ascending(t) ==> spots_ascending(insert_spot(t, x)),
    decreases t.len(),
{
    let r = insert_spot(t, x);
    if t.len() == 0 {
        assert(r[0] == x);
    } else if spot_le(t.last(), x) {
        assert forall|y: ((i32, i32), i32)| #[trigger] r.contains(y) <==> (t.contains(y) || y == x) by {
            if r.contains(y) {
                let k = choose|k: int| 0 <= k < r.len() && r[k] == y;
                if k < t.len() {
                    assert(t[k] == y);
                }
            }
            if t.contains(y) {
                let k = choose|k: int| 0 <= k < t.len() && t[k] == y;
                assert(r[k] == y);
            }
            if y == x {
                assert(r[t.len() as int] == y);
            }
        }
        if spots_ascending(t) {
            assert forall|i: int, j: int| 0 <= i < j < r.len() implies spot_le(#[trigger] r[i], #[trigger] r[j]) by {
                if j == t.len() {
                    assert(spot_le(t[i], t[t.len() - 1]) || i == t.len() - 1);
                }
            }
        }
    } else {
        let front = t.drop_last();
        let last = t.last();
        lemma_insert_spot(front, x);
        let f = insert_spot(front, x);
        assert forall|y: ((i32, i32), i32)| #[trigger] r.contains(y) <==> (t.contains(y) || y == x) by {
            if r.contains(y) {
                let k = choose|k: int| 0 <= k < r.len() && r[k] == y;
                if k < f.len() {
                    assert(f[k] == y);
                    assert(f.contains(y));
                    if front.contains(y) {
                        let m = choose|m: int| 0 <= m < front.len() && front[m] == y;
                        assert(t[m] == y);
                    }
                } else {
                    assert(t[t.len() - 1] == y);
                }
            }
            if t.contains(y) {
                let k = choose|k: int| 0 <= k < t.len() && t[k] == y;
                if k < front.len() {
                    assert(front[k] == y);
                    assert(f.contains(y));
                    let m = choose|m: int| 0 <= m < f.len() && f[m] == y;
                    assert(r[m] == y);
                } else {
                    assert(r[f.len() as int] == y);
                }
            }
            if y == x {
                assert(f.contains(x));
                let m = choose|m: int| 0 <= m < f.len() && f[m] == x;
                assert(r[m] == y);
            }
        }
        if spots_ascending(t) {
            assert(spots_ascending(front)) by {
                assert forall|i: int, j: int| 0 <= i < j < front.len() implies spot_le(#[trigger] front[i], #[trigger] front[j]) by {
                    assert(front[i] == t[i] && front[j] == t[j]);
                }
            }
            assert forall|i: int, j: int| 0 <= i < j < r.len() implies spot_le(#[trigger] r[i], #[trigger] r[j]) by {
                if j == f.len() {
                    assert(r[i] == f[i]);
                    assert(f.contains(f[i]));
                    if f[i] == x {
                        assert(!spot_le(last, x));
                    } else {
                        assert(front.contains(f[i]));
                        let m = choose|m: int| 0 <= m < front.len() && front[m] == f[i];
                        assert(spot_le(t[m], t[t.len() - 1]));
                    }
                } else {
                    assert(r[i] == f[i] && r[j] == f[j]);
                }
            }
        }
    }
}

/// Sorting cells and ids keeps the elements and puts them in ascending order.
pub proof fn lemma_sorted_spots(s: Seq<((i32, i32), i32)>)
    ensures
        sorted_spots(s).len() == s.len(),
        forall|y: ((i32, i32), i32)| #[trigger] sorted_spots(s).contains(y) <==> s.contains(y),
        spots_ascending(sorted_spots(s)),
    decreases s.len(),
{
    if s.len() > 0 {
        let front = s.drop_last();
        lemma_sorted_spots(front);
        lemma_insert_spot(sorted_spots(front), s.last());
        assert forall|y: ((i32, i32), i32)| #[trigger] sorted_spots(s).contains(y) <==> s.contains(y) by {
            if front.contains(y) {
                let m = choose|m: int| 0 <= m < front.len() && front[m] == y;
                assert(s[m] == y);
            }
            if s.contains(y) {
                let m = choose|m: int| 0 <= m < s.len() && s[m] == y;
                if m < front.len() {
                    assert(front[m] == y);
                } else {
                    assert(y == s.last());
                }
            }
        }
    }
}

fn spot_le_exec(a: ((i32, i32), i32), b: ((i32, i32), i32)) -> (r: bool)
    ensures
        r == spot_le(a, b),
{
    a.0.0 < b.0.0 || (a.0.0 == b.0.0 && (a.0.1 < b.0.1 || (a.0.1 == b.0.1 && a.1 <= b.1)))
}

fn insert_spot_into(out: &mut Vec<((i32, i32), i32)>, x: ((i32, i32), i32))
    ensures
        final(out)@ == insert_spot(old(out)@, x),
{
    let ghost t = out@;
    out.push(x);
    let mut j: usize = out.len() - 1;
    proof {
        assert(t.take(j as int) =~= t);
        assert(out@ =~= t.take(j as int).push(x) + t.skip(j as int));
        assert(insert_spot(t, x) =~= insert_spot(t.take(j as int), x) + t.skip(j as int));
    }
    while j > 0 && !spot_le_exec(out[j - 1], x)
        invariant
            j < out.len(),
            out.len() == t.len() + 1,
            out@ == t.take(j as int).push(x) + t.skip(j as int),
            insert_spot(t, x) == insert_spot(t.take(j as int), x) + t.skip(j as int),
        decreases j,
    {
        let prev = out[j - 1];
        proof {
            assert(prev == t[j - 1]);
            let tj = t.take(j as int);
            assert(tj.drop_last() =~= t.take(j - 1));
            assert(tj.last() == t[j - 1]);
            assert(!spot_le(tj.last(), x));
            assert(insert_spot(tj, x) == insert_spot(t.take(j - 1), x).push(t[j - 1]));
            assert(insert_spot(t.take(j - 1), x).push(t[j - 1]) + t.skip(j as int) =~= insert_spot(t.take(j - 1), x)
                + t.skip(j - 1));
        }
        out.set(j, prev);
        out.set(j - 1, x);
        j = j - 1;
        proof {
            assert(out@ =~= t.take(j as int).push(x) + t.skip(j as int));
        }
    }
    proof {
        let tj = t.take(j as int);
        if j == 0 {
            assert(tj.len() == 0);
            assert(insert_spot(tj, x) =~= seq![x]);
        } else {
            assert(tj.last() == t[j - 1]);
            assert(out@[j - 1] == t[j - 1]);
        }
    }
}

/// Sorts the cells and ids in ascending order, as std's sort does.
pub fn sort_spots(v: &mut Vec<((i32, i32), i32)>)
    ensures
        final(v)@ == sorted_spots(old(v)@),
{
    let ghost s0 = v@;
    let mut out: Vec<((i32, i32), i32)> = Vec::new();
    let mut i: usize = 0;
    while i < v.len()
        invariant
            v@ == s0,
            i <= v.len(),
            out@ == sorted_spots(s0.take(i as int)),
        decreases v.len() - i,
    {
        proof {
            assert(s0.take(i + 1).drop_last() =~= s0.take(i as int));
        }
        insert_spot_into(&mut out, v[i]);
        i = i + 1;
    }
    proof {
        assert(s0.take(i as int) =~= s0);
    }
    *v = out;
}

} // verus!
