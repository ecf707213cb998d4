//! The bracketed blocks of a title: every `[...]`, `(...)` and `{...}`, an
//! unclosed one running to the end of the title.
use vstd::prelude::*;
use vstd::relations::{sorted_by, total_ordering};

verus! {

pub open spec fn is_open(c: u8) -> bool {
    c == 0x5b || c == 0x28 || c == 0x7b
}

pub open spec fn is_close(c: u8) -> bool {
    c == 0x5d || c == 0x29 || c == 0x7d
}

/// `close` is the bracket that ends a block opened by `open`.
pub open spec fn closes(open: u8, close: u8) -> bool {
    (open == 0x5b && close == 0x5d) || (open == 0x28 && close == 0x29) || (open == 0x7b && close
        == 0x7d)
}

/// The scan of a title: the open brackets still waiting for their closer
/// (bracket and position), and the blocks closed so far.  A closer that does
/// not match the innermost open bracket is ignored.
pub open spec fn scan(b: Seq<u8>) -> (Seq<(u8, int)>, Seq<(int, int)>)
    decreases b.len(),
{
    if b.len() == 0 {
        (Seq::empty(), Seq::empty())
    } else {
        let (stack, blocks) = scan(b.drop_last());
        let i = b.len() - 1;
        let c = b.last();
        if is_open(c) {
            (stack.push((c, i)), blocks)
        } else if stack.len() > 0 && closes(stack.last().0, c) {
            (stack.drop_last(), blocks.push((stack.last().1, i)))
        } else {
            (stack, blocks)
        }
    }
}

/// The blocks of a title in the order the scan finds them: closed blocks as
/// they close, then every unclosed block running to the end of the title.
pub open spec fn raw_blocks(b: Seq<u8>) -> Seq<(int, int)> {
    let (stack, blocks) = scan(b);
    blocks + stack.map_values(|s: (u8, int)| (s.1, b.len() as int))
}

/// Descending lexicographic order on `(start, end)` pairs.
pub open spec fn block_order(x: (int, int), y: (int, int)) -> bool {
    x.0 > y.0 || (x.0 == y.0 && x.1 >= y.1)
}

/// The blocks of a title, innermost (rightmost opening) first.
pub open spec fn blocks_of(b: Seq<u8>) -> Seq<(int, int)> {
    raw_blocks(b).sort_by(|x: (int, int), y: (int, int)| block_order(x, y))
}

/// A block opens on a bracket and ends on a closing bracket or at the end.
pub open spec fn block_ok(b: Seq<u8>, x: (int, int)) -> bool {
    &&& 0 <= x.0 < x.1 <= b.len()
    &&& is_open(b[x.0])
    &&& x.1 == b.len() || is_close(b[x.1])
}

pub open spec fn view_blocks(v: Seq<(usize, usize)>) -> Seq<(int, int)> {
    v.map_values(|x: (usize, usize)| (x.0 as int, x.1 as int))
}

/// A closed block: an opening bracket before its closing bracket.
pub open spec fn closed_ok(b: Seq<u8>, x: (int, int)) -> bool {
    &&& 0 <= x.0 < x.1 < b.len()
    &&& is_open(b[x.0])
    &&& is_close(b[x.1])
}

proof fn scan_ok(b: Seq<u8>)
    ensures
        forall|i: int|
            0 <= i < scan(b).0.len() ==> {
                let s = #[trigger] scan(b).0[i];
                0 <= s.1 < b.len() && b[s.1] == s.0 && is_open(s.0)
            },
        forall|i: int| 0 <= i < scan(b).1.len() ==> closed_ok(b, #[trigger] scan(b).1[i]),
    decreases b.len(),
{
    if b.len() > 0 {
        let p = b.drop_last();
        scan_ok(p);
        let (stack, blocks) = scan(p);
        assert forall|i: int| 0 <= i < stack.len() implies b[(#[trigger] stack[i]).1] == stack[i].0 by {
            assert(b[stack[i].1] == p[stack[i].1]);
        }
        assert forall|i: int| 0 <= i < blocks.len() implies closed_ok(b, #[trigger] blocks[i]) by {
            assert(b[blocks[i].0] == p[blocks[i].0]);
            assert(b[blocks[i].1] == p[blocks[i].1]);
        }
        let c = b.last();
        if !is_open(c) && stack.len() > 0 && closes(stack.last().0, c) {
            assert(closed_ok(b, (stack.last().1, b.len() - 1)));
        }
    }
}

proof fn raw_blocks_ok(b: Seq<u8>)
    ensures
        forall|i: int| 0 <= i < raw_blocks(b).len() ==> block_ok(b, #[trigger] raw_blocks(b)[i]),
{
    scan_ok(b);
    let (stack, blocks) = scan(b);
    assert forall|i: int| 0 <= i < raw_blocks(b).len() implies block_ok(
        b,
        #[trigger] raw_blocks(b)[i],
    ) by {
        if i >= blocks.len() {
            let s = stack[i - blocks.len()];
            assert(raw_blocks(b)[i] == (s.1, b.len() as int));
        }
    }
}

proof fn block_order_total()
    ensures
        total_ordering(|x: (int, int), y: (int, int)| block_order(x, y)),
{
}

/// Every block of a title is well formed.
pub proof fn blocks_of_ok(b: Seq<u8>)
    ensures
        forall|i: int| 0 <= i < blocks_of(b).len() ==> block_ok(b, #[trigger] blocks_of(b)[i]),
{
    broadcast use vstd::seq_lib::group_to_multiset_ensures, vstd::multiset::group_multiset_axioms;

    raw_blocks_ok(b);
    block_order_total();
    let leq = |x: (int, int), y: (int, int)| block_order(x, y);
    raw_blocks(b).lemma_sort_by_ensures(leq);
    assert forall|i: int| 0 <= i < blocks_of(b).len() implies block_ok(
        b,
        #[trigger] blocks_of(b)[i],
    ) by {
        let x = blocks_of(b)[i];
        assert(blocks_of(b).contains(x));
        assert(raw_blocks(b).contains(x));
    }
}

/// A block opens on a bracket and ends on the bracket that closes it, or at
/// the end of the title.
pub open spec fn block_paired(b: Seq<u8>, x: (int, int)) -> bool {
    &&& 0 <= x.0 < x.1 <= b.len()
    &&& is_open(b[x.0])
    &&& x.1 == b.len() || closes(b[x.0], b[x.1])
}

/// What the scan keeps: open brackets on the stack in increasing order,
/// closed blocks paired, no two starting at the same bracket, and every
/// opening bracket so far either waiting or starting a closed block.
spec fn scan_shape(b: Seq<u8>) -> bool {
    let (st, bl) = scan(b);
    &&& forall|i: int, j: int| 0 <= i < j < st.len() ==> (#[trigger] st[i]).1 < (#[trigger] st[j]).1
    &&& forall|i: int|
        0 <= i < st.len() ==> 0 <= (#[trigger] st[i]).1 < b.len() && st[i].0 == b[st[i].1]
    &&& forall|i: int| 0 <= i < bl.len() ==> block_paired(b, #[trigger] bl[i]) && bl[i].1 < b.len()
    &&& forall|i: int, j: int| 0 <= i < bl.len() && 0 <= j < st.len() ==> (#[trigger] bl[i]).0 != (#[trigger] st[j]).1
    &&& forall|i: int, j: int| 0 <= i < j < bl.len() ==> (#[trigger] bl[i]).0 != (#[trigger] bl[j]).0
    &&& forall|p: int|
        0 <= p < b.len() && is_open(b[p]) ==> (exists|i: int| 0 <= i < bl.len() && (#[trigger] bl[i]).0 == p)
            || (exists|j: int| 0 <= j < st.len() && (#[trigger] st[j]).1 == p)
}

proof fn scan_shape_holds(b: Seq<u8>)
    ensures
        scan_shape(b),
    decreases b.len(),
{
    if b.len() > 0 {
        let q = b.drop_last();
        scan_shape_holds(q);
        let (st, bl) = scan(q);
        let n = b.len() - 1;
        let c = b.last();
        assert(forall|k: int| 0 <= k < q.len() ==> b[k] == q[k]);
        assert(b[n] == c);
        if is_open(c) {
            let st2 = st.push((c, n));
            assert(scan(b) == (st2, bl));
            assert forall|p: int| 0 <= p < b.len() && is_open(b[p]) implies (exists|i: int|
                0 <= i < bl.len() && (#[trigger] bl[i]).0 == p) || (exists|j: int|
                0 <= j < st2.len() && (#[trigger] st2[j]).1 == p) by {
                if p == n {
                    assert(st2[st.len() as int].1 == p);
                } else {
                    assert(q[p] == b[p]);
                    if exists|j: int| 0 <= j < st.len() && (#[trigger] st[j]).1 == p {
                        let j = choose|j: int| 0 <= j < st.len() && (#[trigger] st[j]).1 == p;
                        assert(st2[j] == st[j]);
                    }
                }
            }
            assert forall|i: int, j: int| 0 <= i < bl.len() && 0 <= j < st2.len() implies (#[trigger] bl[i]).0
                != (#[trigger] st2[j]).1 by {
                if j < st.len() {
                    assert(st2[j] == st[j]);
                }
            }
            assert forall|i: int, j: int| 0 <= i < j < st2.len() implies (#[trigger] st2[i]).1 < (#[trigger] st2[j]).1 by {
                assert(st2[i] == st[i]);
                if j < st.len() {
                    assert(st2[j] == st[j]);
                }
            }
        } else if st.len() > 0 && closes(st.last().0, c) {
            let top = st.last();
            let st2 = st.drop_last();
            let bl2 = bl.push((top.1, n));
            assert(scan(b) == (st2, bl2));
            assert(top == st[st.len() - 1]);
            assert forall|p: int| 0 <= p < b.len() && is_open(b[p]) implies (exists|i: int|
                0 <= i < bl2.len() && (#[trigger] bl2[i]).0 == p) || (exists|j: int|
                0 <= j < st2.len() && (#[trigger] st2[j]).1 == p) by {
                if p < n {
                    assert(q[p] == b[p]);
                    if exists|i: int| 0 <= i < bl.len() && (#[trigger] bl[i]).0 == p {
                        let i = choose|i: int| 0 <= i < bl.len() && (#[trigger] bl[i]).0 == p;
                        assert(bl2[i] == bl[i]);
                    } else {
                        let j = choose|j: int| 0 <= j < st.len() && (#[trigger] st[j]).1 == p;
                        if j == st.len() - 1 {
                            assert(bl2[bl.len() as int].0 == p);
                        } else {
                            assert(st2[j] == st[j]);
                        }
                    }
                }
            }
            assert forall|i: int, j: int| 0 <= i < bl2.len() && 0 <= j < st2.len() implies (#[trigger] bl2[i]).0
                != (#[trigger] st2[j]).1 by {
                assert(st2[j] == st[j]);
                if i < bl.len() {
                    assert(bl2[i] == bl[i]);
                } else {
                    assert(st[j].1 < st[st.len() - 1].1);
                }
            }
            assert forall|i: int, j: int| 0 <= i < j < bl2.len() implies (#[trigger] bl2[i]).0 != (#[trigger] bl2[j]).0 by {
                assert(bl2[i] == bl[i]);
                if j < bl.len() {
                    assert(bl2[j] == bl[j]);
                } else {
                    assert(bl[i].0 != st[st.len() - 1].1);
                }
            }
            assert forall|i: int| 0 <= i < bl2.len() implies block_paired(b, #[trigger] bl2[i]) && bl2[i].1 < b.len() by {
                if i < bl.len() {
                    assert(bl2[i] == bl[i]);
                    assert(b[bl[i].0] == q[bl[i].0]);
                    assert(b[bl[i].1] == q[bl[i].1]);
                }
            }
            assert forall|i: int, j: int| 0 <= i < j < st2.len() implies (#[trigger] st2[i]).1 < (#[trigger] st2[j]).1 by {
                assert(st2[i] == st[i]);
                assert(st2[j] == st[j]);
            }
            assert forall|i: int| 0 <= i < st2.len() implies 0 <= (#[trigger] st2[i]).1 < b.len() && st2[i].0 == b[st2[i].1] by {
                assert(st2[i] == st[i]);
            }
        } else {
            assert(scan(b) == (st, bl));
            assert forall|i: int| 0 <= i < bl.len() implies block_paired(b, #[trigger] bl[i]) && bl[i].1 < b.len() by {
                assert(b[bl[i].0] == q[bl[i].0]);
                assert(b[bl[i].1] == q[bl[i].1]);
            }
            assert forall|p: int| 0 <= p < b.len() && is_open(b[p]) implies (exists|i: int|
                0 <= i < bl.len() && (#[trigger] bl[i]).0 == p) || (exists|j: int|
                0 <= j < st.len() && (#[trigger] st[j]).1 == p) by {
                assert(p != n);
                assert(q[p] == b[p]);
            }
        }
    }
    let (st0, bl0) = scan(b);
    assert(forall|i: int, j: int| 0 <= i < j < st0.len() ==> (#[trigger] st0[i]).1 < (#[trigger] st0[j]).1);
    assert(forall|i: int| 0 <= i < st0.len() ==> 0 <= (#[trigger] st0[i]).1 < b.len() && st0[i].0 == b[st0[i].1]);
    assert(forall|i: int| 0 <= i < bl0.len() ==> block_paired(b, #[trigger] bl0[i]) && bl0[i].1 < b.len());
    assert(forall|i: int, j: int| 0 <= i < bl0.len() && 0 <= j < st0.len() ==> (#[trigger] bl0[i]).0 != (#[trigger] st0[j]).1);
    assert(forall|i: int, j: int| 0 <= i < j < bl0.len() ==> (#[trigger] bl0[i]).0 != (#[trigger] bl0[j]).0);
}

/// The found blocks before sorting pair brackets, start at distinct
/// brackets, and every opening bracket starts one.
proof fn raw_blocks_pair(b: Seq<u8>)
    ensures
        forall|i: int| 0 <= i < raw_blocks(b).len() ==> block_paired(b, #[trigger] raw_blocks(b)[i]),
        raw_blocks(b).no_duplicates(),
        forall|i: int, j: int|
            0 <= i < raw_blocks(b).len() && 0 <= j < raw_blocks(b).len() && i != j ==> (#[trigger] raw_blocks(b)[i]).0
                != (#[trigger] raw_blocks(b)[j]).0,
        forall|p: int|
            0 <= p < b.len() && is_open(b[p]) ==> exists|i: int|
                0 <= i < raw_blocks(b).len() && (#[trigger] raw_blocks(b)[i]).0 == p,
{
    scan_shape_holds(b);
    scan_ok(b);
    let (st, bl) = scan(b);
    let r = raw_blocks(b);
    let m = st.map_values(|s: (u8, int)| (s.1, b.len() as int));
    assert(r == bl + m);
    assert forall|i: int| 0 <= i < r.len() implies block_paired(b, #[trigger] r[i]) by {
        if i < bl.len() {
            assert(r[i] == bl[i]);
        } else {
            assert(r[i] == m[i - bl.len()]);
            assert(st[i - bl.len()].0 == b[st[i - bl.len()].1]);
        }
    }
    assert forall|i: int, j: int| 0 <= i < r.len() && 0 <= j < r.len() && i != j implies (#[trigger] r[i]).0
        != (#[trigger] r[j]).0 by {
        if i < bl.len() && j < bl.len() {
            assert(r[i] == bl[i] && r[j] == bl[j]);
            if i > j {
                assert(bl[j].0 != bl[i].0);
            }
        } else if i < bl.len() {
            assert(r[i] == bl[i] && r[j] == m[j - bl.len()]);
            assert(bl[i].0 != st[j - bl.len()].1);
        } else if j < bl.len() {
            assert(r[j] == bl[j] && r[i] == m[i - bl.len()]);
            assert(bl[j].0 != st[i - bl.len()].1);
        } else {
            assert(r[i] == m[i - bl.len()] && r[j] == m[j - bl.len()]);
            if i < j {
                assert(st[i - bl.len()].1 < st[j - bl.len()].1);
            } else {
                assert(st[j - bl.len()].1 < st[i - bl.len()].1);
            }
        }
    }
    assert(r.no_duplicates());
    assert forall|p: int| 0 <= p < b.len() && is_open(b[p]) implies exists|i: int|
        0 <= i < r.len() && (#[trigger] r[i]).0 == p by {
        if exists|i: int| 0 <= i < bl.len() && (#[trigger] bl[i]).0 == p {
            let i = choose|i: int| 0 <= i < bl.len() && (#[trigger] bl[i]).0 == p;
            assert(r[i] == bl[i]);
        } else {
            let j = choose|j: int| 0 <= j < st.len() && (#[trigger] st[j]).1 == p;
            assert(r[bl.len() + j] == m[j]);
        }
    }
}

/// The blocks pair brackets: each opens on a bracket and ends on the bracket
/// that closes it or at the end of the title, and every opening bracket
/// starts exactly one block.
pub proof fn blocks_pair_brackets(b: Seq<u8>)
    ensures
        forall|i: int| 0 <= i < blocks_of(b).len() ==> block_paired(b, #[trigger] blocks_of(b)[i]),
        forall|i: int, j: int|
            0 <= i < blocks_of(b).len() && 0 <= j < blocks_of(b).len() && i != j ==> (#[trigger] blocks_of(
                b,
            )[i]).0 != (#[trigger] blocks_of(b)[j]).0,
        forall|p: int|
            0 <= p < b.len() && is_open(b[p]) ==> exists|i: int|
                0 <= i < blocks_of(b).len() && (#[trigger] blocks_of(b)[i]).0 == p,
{
    broadcast use vstd::seq_lib::group_to_multiset_ensures, vstd::multiset::group_multiset_axioms;

    raw_blocks_pair(b);
    block_order_total();
    let leq = |x: (int, int), y: (int, int)| block_order(x, y);
    let r = raw_blocks(b);
    let s = blocks_of(b);
    r.lemma_sort_by_ensures(leq);
    assert(s.to_multiset() =~= r.to_multiset());
    r.lemma_multiset_has_no_duplicates();
    s.lemma_multiset_has_no_duplicates_conv();
    assert forall|i: int| 0 <= i < s.len() implies block_paired(b, #[trigger] s[i]) by {
        assert(s.contains(s[i]));
        assert(r.contains(s[i]));
    }
    assert forall|i: int, j: int| 0 <= i < s.len() && 0 <= j < s.len() && i != j implies (#[trigger] s[i]).0
        != (#[trigger] s[j]).0 by {
        assert(s[i] != s[j]);
        assert(s.contains(s[i]) && s.contains(s[j]));
        assert(r.contains(s[i]) && r.contains(s[j]));
        let a = choose|a: int| 0 <= a < r.len() && r[a] == s[i];
        let c = choose|c: int| 0 <= c < r.len() && r[c] == s[j];
        assert(a != c);
    }
    assert forall|p: int| 0 <= p < b.len() && is_open(b[p]) implies exists|i: int|
        0 <= i < s.len() && (#[trigger] s[i]).0 == p by {
        let a = choose|a: int| 0 <= a < r.len() && (#[trigger] r[a]).0 == p;
        assert(r.contains(r[a]));
        assert(s.to_multiset().count(r[a]) > 0);
        assert(s.contains(r[a]));
        let i = choose|i: int| 0 <= i < s.len() && s[i] == r[a];
        assert(s[i].0 == p);
    }
}

proof fn insert_multiset<A>(s: Seq<A>, p: int, x: A)
    requires
        0 <= p <= s.len(),
    ensures
        s.insert(p, x).to_multiset() =~= s.to_multiset().insert(x),
{
    broadcast use vstd::seq_lib::group_to_multiset_ensures, vstd::multiset::group_multiset_axioms;

    let t = s.insert(p, x);
    s.insert_ensures(p, x);
    assert(t.remove(p) =~= s);
    assert(t.contains(x)) by {
        assert(t[p] == x);
    }
    assert(t.to_multiset().count(x) > 0);
    assert(s.to_multiset() =~= t.to_multiset().remove(x));
}

/// The blocks of `title`, innermost (rightmost opening) first.
pub fn find_blocks(title: &[u8]) -> (r: Vec<(usize, usize)>)
    ensures
        view_blocks(r@) == blocks_of(title@),
{
    let mut stack: Vec<(u8, usize)> = Vec::new();
    let mut closed: Vec<(usize, usize)> = Vec::new();
    let mut i: usize = 0;
    while i < title.len()
        invariant
            i <= title@.len(),
            stack@.map_values(|s: (u8, usize)| (s.0, s.1 as int)) == scan(
                title@.subrange(0, i as int),
            ).0,
            view_blocks(closed@) == scan(title@.subrange(0, i as int)).1,
            forall|k: int| 0 <= k < stack@.len() ==> (#[trigger] stack@[k]).1 < i,
        decreases title@.len() - i,
    {
        let ghost pre = title@.subrange(0, i as int);
        assert(title@.subrange(0, i + 1).drop_last() =~= pre);
        let c = title[i];
        if c == 0x5b || c == 0x28 || c == 0x7b {
            stack.push((c, i));
            assert(stack@.map_values(|s: (u8, usize)| (s.0, s.1 as int)) =~= scan(
                title@.subrange(0, i + 1),
            ).0);
        } else if stack.len() > 0 && ((stack[stack.len() - 1].0 == 0x5b && c == 0x5d) || (
        stack[stack.len() - 1].0 == 0x28 && c == 0x29) || (stack[stack.len() - 1].0 == 0x7b && c
            == 0x7d)) {
            let top = stack.pop().unwrap();
            closed.push((top.1, i));
            assert(stack@.map_values(|s: (u8, usize)| (s.0, s.1 as int)) =~= scan(
                title@.subrange(0, i + 1),
            ).0);
            assert(view_blocks(closed@) =~= scan(title@.subrange(0, i + 1)).1);
        }
        i = i + 1;
    }
    assert(title@.subrange(0, i as int) =~= title@);
    let ghost st = scan(title@).0;
    let mut k: usize = 0;
    let ghost base = closed@;
    while k < stack.len()
        invariant
            k <= stack@.len(),
            st == stack@.map_values(|s: (u8, usize)| (s.0, s.1 as int)),
            view_blocks(closed@) == view_blocks(base) + st.subrange(0, k as int).map_values(
                |s: (u8, int)| (s.1, title@.len() as int),
            ),
        decreases stack@.len() - k,
    {
        assert(st[k as int] == (stack@[k as int].0, stack@[k as int].1 as int));
        let ghost cb = view_blocks(closed@);
        closed.push((stack[k].1, title.len()));
        assert(view_blocks(closed@) =~= cb.push((stack@[k as int].1 as int, title@.len() as int)));
        assert(st.subrange(0, k + 1).map_values(|s: (u8, int)| (s.1, title@.len() as int)) =~= st.subrange(
            0,
            k as int,
        ).map_values(|s: (u8, int)| (s.1, title@.len() as int)).push((st[k as int].1, title@.len() as int)));
        assert(view_blocks(closed@) =~= view_blocks(base) + st.subrange(0, k + 1).map_values(
            |s: (u8, int)| (s.1, title@.len() as int),
        ));
        k = k + 1;
    }
    assert(st.subrange(0, k as int) =~= st);
    assert(view_blocks(closed@) =~= raw_blocks(title@));
    sort_blocks(closed)
}

/// `v` sorted innermost first.
fn sort_blocks(v: Vec<(usize, usize)>) -> (r: Vec<(usize, usize)>)
    ensures
        view_blocks(r@) == view_blocks(v@).sort_by(|x: (int, int), y: (int, int)| block_order(x, y)),
{
    broadcast use vstd::seq_lib::group_to_multiset_ensures;

    let ghost leq = |x: (int, int), y: (int, int)| block_order(x, y);
    let ghost vv = view_blocks(v@);
    let mut out: Vec<(usize, usize)> = Vec::new();
    let mut i: usize = 0;
    while i < v.len()
        invariant
            i <= v@.len(),
            vv == view_blocks(v@),
            leq == (|x: (int, int), y: (int, int)| block_order(x, y)),
            sorted_by(view_blocks(out@), leq),
            view_blocks(out@).to_multiset() == vv.subrange(0, i as int).to_multiset(),
        decreases v@.len() - i,
    {
        let x = v[i];
        assert(vv[i as int] == (x.0 as int, x.1 as int));
        let mut p: usize = 0;
        while p < out.len() && (out[p].0 > x.0 || (out[p].0 == x.0 && out[p].1 >= x.1))
            invariant
                p <= out@.len(),
                forall|j: int| 0 <= j < p ==> block_order(#[trigger] view_blocks(out@)[j], (x.0 as int, x.1 as int)),
            decreases out@.len() - p,
        {
            p = p + 1;
        }
        let ghost before = view_blocks(out@);
        let ghost xv = (x.0 as int, x.1 as int);
        out.insert(p, x);
        proof {
            assert(view_blocks(out@) =~= before.insert(p as int, xv));
            insert_multiset(before, p as int, xv);
            assert(vv.subrange(0, i + 1) =~= vv.subrange(0, i as int).push(xv));
            vstd::seq_lib::to_multiset_build(vv.subrange(0, i as int), xv);
            assert forall|a: int, c: int|
                0 <= a < c < view_blocks(out@).len() implies #[trigger] leq(
                view_blocks(out@)[a],
                view_blocks(out@)[c],
            ) by {
                let o = view_blocks(out@);
                if a < p && c < p {
                    assert(leq(before[a], before[c]));
                } else if a < p && c == p {
                } else if a < p {
                    assert(leq(before[a], before[c - 1]));
                } else if a == p {
                    if p < before.len() {
                        assert(!block_order(before[p as int], xv));
                        assert(leq(before[p as int], before[c - 1]));
                    }
                } else {
                    assert(leq(before[a - 1], before[c - 1]));
                }
            }
        }
        i = i + 1;
    }
    proof {
        assert(vv.subrange(0, i as int) =~= vv);
        block_order_total();
        vv.lemma_sort_by_ensures(leq);
        vstd::seq_lib::lemma_sorted_unique(view_blocks(out@), vv.sort_by(leq), leq);
    }
    out
}

} // verus!
