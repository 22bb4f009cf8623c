//! The order of file paths: name by name, each name compared byte by byte,
//! as the standard library orders paths whose parts are plain names.
use vstd::prelude::*;

verus! {

/// Byte strings in byte order: negative, zero or positive as `x` comes
/// before, equals or comes after `y` (a prefix comes first).
pub open spec fn bytes_order(x: Seq<u8>, y: Seq<u8>) -> int
    decreases x.len(),
{
    if x.len() == 0 {
        if y.len() == 0 {
            0
        } else {
            -1
        }
    } else if y.len() == 0 {
        1
    } else if x[0] < y[0] {
        -1
    } else if x[0] > y[0] {
        1
    } else {
        bytes_order(x.drop_first(), y.drop_first())
    }
}

/// Paths compared name by name, each name in byte order.
pub open spec fn paths_order(a: Seq<Seq<u8>>, b: Seq<Seq<u8>>) -> int
    decreases a.len(),
{
    if a.len() == 0 {
        if b.len() == 0 {
            0
        } else {
            -1
        }
    } else if b.len() == 0 {
        1
    } else if bytes_order(a[0], b[0]) != 0 {
        bytes_order(a[0], b[0])
    } else {
        paths_order(a.drop_first(), b.drop_first())
    }
}

/// Byte order is a total order.
pub proof fn lemma_bytes_order(x: Seq<u8>, y: Seq<u8>)
    ensures
        -1 <= bytes_order(x, y) <= 1,
        bytes_order(x, y) == -bytes_order(y, x),
        bytes_order(x, y) == 0 <==> x == y,
    decreases x.len(),
{
    if x.len() > 0 && y.len() > 0 && x[0] == y[0] {
        lemma_bytes_order(x.drop_first(), y.drop_first());
        if x.drop_first() == y.drop_first() {
            assert(x =~= seq![x[0]] + x.drop_first());
            assert(y =~= seq![y[0]] + y.drop_first());
        }
    } else if x.len() == 0 && y.len() == 0 {
        assert(x =~= y);
    } else if x.len() > 0 && y.len() > 0 {
        assert(x[0] != y[0]);
        assert(x != y);
    }
}

pub proof fn lemma_bytes_order_trans(x: Seq<u8>, y: Seq<u8>, z: Seq<u8>)
    requires
        bytes_order(x, y) <= 0,
        bytes_order(y, z) <= 0,
    ensures
        bytes_order(x, z) <= 0,
    decreases x.len(),
{
    if x.len() > 0 && y.len() > 0 && z.len() > 0 && x[0] == y[0] && y[0] == z[0] {
        lemma_bytes_order_trans(x.drop_first(), y.drop_first(), z.drop_first());
    }
}

/// Path order is a total order.
pub proof fn lemma_paths_order(a: Seq<Seq<u8>>, b: Seq<Seq<u8>>)
    ensures
        -1 <= paths_order(a, b) <= 1,
        paths_order(a, b) == -paths_order(b, a),
        paths_order(a, b) == 0 <==> a == b,
    decreases a.len(),
{
    if a.len() > 0 && b.len() > 0 {
        lemma_bytes_order(a[0], b[0]);
        if a[0] == b[0] {
            lemma_paths_order(a.drop_first(), b.drop_first());
            if a.drop_first() == b.drop_first() {
                assert(a =~= seq![a[0]] + a.drop_first());
                assert(b =~= seq![b[0]] + b.drop_first());
            }
        } else {
            assert(a != b);
        }
    } else if a.len() == 0 && b.len() == 0 {
        assert(a =~= b);
    }
}

pub proof fn lemma_paths_order_trans(a: Seq<Seq<u8>>, b: Seq<Seq<u8>>, c: Seq<Seq<u8>>)
    requires
        paths_order(a, b) <= 0,
        paths_order(b, c) <= 0,
    ensures
        paths_order(a, c) <= 0,
    decreases a.len(),
{
    if a.len() > 0 && b.len() > 0 && c.len() > 0 {
        lemma_bytes_order(a[0], b[0]);
        lemma_bytes_order(b[0], c[0]);
        lemma_bytes_order(a[0], c[0]);
        lemma_bytes_order_trans(a[0], b[0], c[0]);
        if bytes_order(a[0], b[0]) == 0 && bytes_order(b[0], c[0]) == 0 {
            lemma_paths_order_trans(a.drop_first(), b.drop_first(), c.drop_first());
        } else if bytes_order(a[0], c[0]) == 0 {
            // a[0] == c[0], so a[0] and b[0] compare both ways: equal.
            assert(a[0] == c[0]);
            assert(bytes_order(a[0], b[0]) == 0);
        }
    }
}

/// Paths in one directory compare as their last names do.
pub proof fn lemma_paths_order_same_dir(dir: Seq<Seq<u8>>, x: Seq<u8>, y: Seq<u8>)
    ensures
        paths_order(dir.push(x), dir.push(y)) == bytes_order(x, y),
    decreases dir.len(),
{
    if dir.len() == 0 {
        lemma_bytes_order(x, y);
        assert(dir.push(x)[0] == x);
        assert(dir.push(y)[0] == y);
        assert(dir.push(x).drop_first() =~= Seq::<Seq<u8>>::empty());
        assert(dir.push(y).drop_first() =~= Seq::<Seq<u8>>::empty());
        assert(paths_order(Seq::<Seq<u8>>::empty(), Seq::<Seq<u8>>::empty()) == 0);
    } else {
        lemma_bytes_order(dir[0], dir[0]);
        assert(dir.push(x)[0] == dir[0]);
        assert(dir.push(y)[0] == dir[0]);
        lemma_paths_order_same_dir(dir.drop_first(), x, y);
        assert(dir.push(x).drop_first() =~= dir.drop_first().push(x));
        assert(dir.push(y).drop_first() =~= dir.drop_first().push(y));
    }
}

/// Compares two byte strings in byte order.
pub fn compare_bytes(x: &Vec<u8>, y: &Vec<u8>) -> (r: i8)
    ensures
        r == bytes_order(x@, y@),
{
    let mut i: usize = 0;
    assert(x@.skip(0) =~= x@);
    assert(y@.skip(0) =~= y@);
    while i < x.len() && i < y.len()
        invariant
            i <= x@.len(),
            i <= y@.len(),
            bytes_order(x@, y@) == bytes_order(x@.skip(i as int), y@.skip(i as int)),
        decreases x@.len() - i,
    {
        assert(x@.skip(i as int)[0] == x@[i as int]);
        assert(y@.skip(i as int)[0] == y@[i as int]);
        if x[i] < y[i] {
            return -1;
        } else if x[i] > y[i] {
            return 1;
        }
        assert(x@.skip(i as int).drop_first() =~= x@.skip(i + 1));
        assert(y@.skip(i as int).drop_first() =~= y@.skip(i + 1));
        i = i + 1;
    }
    if x.len() == i && y.len() == i {
        0
    } else if x.len() == i {
        -1
    } else {
        1
    }
}

/// Compares two paths name by name.
pub fn compare_paths(a: &Vec<Vec<u8>>, b: &Vec<Vec<u8>>) -> (r: i8)
    ensures
        r == paths_order(a@.map_values(|v: Vec<u8>| v@), b@.map_values(|v: Vec<u8>| v@)),
{
    let ghost av = a@.map_values(|v: Vec<u8>| v@);
    let ghost bv = b@.map_values(|v: Vec<u8>| v@);
    let mut i: usize = 0;
    assert(av.skip(0) =~= av);
    assert(bv.skip(0) =~= bv);
    while i < a.len() && i < b.len()
        invariant
            av == a@.map_values(|v: Vec<u8>| v@),
            bv == b@.map_values(|v: Vec<u8>| v@),
            i <= a@.len(),
            i <= b@.len(),
            paths_order(av, bv) == paths_order(av.skip(i as int), bv.skip(i as int)),
        decreases a@.len() - i,
    {
        assert(av.skip(i as int)[0] == a@[i as int]@);
        assert(bv.skip(i as int)[0] == b@[i as int]@);
        let c = compare_bytes(&a[i], &b[i]);
        if c != 0 {
            return c;
        }
        assert(av.skip(i as int).drop_first() =~= av.skip(i + 1));
        assert(bv.skip(i as int).drop_first() =~= bv.skip(i + 1));
        i = i + 1;
    }
    if a.len() == i && b.len() == i {
        0
    } else if a.len() == i {
        -1
    } else {
        1
    }
}

/// `order` lists every index below `n` once.
pub open spec fn is_permutation(order: Seq<usize>, n: nat) -> bool {
    &&& order.len() == n
    &&& order.no_duplicates()
    &&& forall|i: int| 0 <= i < order.len() ==> #[trigger] order[i] < n
}

/// `order` takes the paths in path order.
pub open spec fn sorted_by_path(order: Seq<usize>, paths: Seq<Seq<Seq<u8>>>) -> bool {
    forall|i: int, j: int|
        0 <= i < j < order.len() ==> paths_order(#[trigger] paths[order[i] as int], #[trigger] paths[order[j] as int])
            <= 0
}

/// The indices of the paths, in path order.
pub fn sorted_order(paths: &Vec<Vec<Vec<u8>>>) -> (order: Vec<usize>)
    ensures
        is_permutation(order@, paths@.len()),
        sorted_by_path(order@, paths@.map_values(|p: Vec<Vec<u8>>| p@.map_values(|v: Vec<u8>| v@))),
{
    let ghost pv = paths@.map_values(|p: Vec<Vec<u8>>| p@.map_values(|v: Vec<u8>| v@));
    let mut order: Vec<usize> = Vec::new();
    let mut n: usize = 0;
    while n < paths.len()
        invariant
            n <= paths@.len(),
            pv == paths@.map_values(|p: Vec<Vec<u8>>| p@.map_values(|v: Vec<u8>| v@)),
            is_permutation(order@, n as nat),
            sorted_by_path(order@, pv),
        decreases paths@.len() - n,
    {
        // Find where path `n` goes: after every path not above it.
        let mut p: usize = order.len();
        while p > 0 && compare_paths(&paths[order[p - 1]], &paths[n]) > 0
            invariant
                p <= order@.len(),
                n < paths@.len(),
                pv == paths@.map_values(|p: Vec<Vec<u8>>| p@.map_values(|v: Vec<u8>| v@)),
                is_permutation(order@, n as nat),
                forall|q: int| p <= q < order@.len() ==> paths_order(#[trigger] pv[order@[q] as int], pv[n as int]) > 0,
            decreases p,
        {
            assert(pv[order@[p - 1] as int] == paths@[order@[p - 1] as int]@.map_values(|v: Vec<u8>| v@));
            assert(pv[n as int] == paths@[n as int]@.map_values(|v: Vec<u8>| v@));
            p = p - 1;
        }
        proof {
            if p > 0 {
                assert(pv[order@[p - 1] as int] == paths@[order@[p - 1] as int]@.map_values(|v: Vec<u8>| v@));
                assert(pv[n as int] == paths@[n as int]@.map_values(|v: Vec<u8>| v@));
            }
        }
        let ghost old_order = order@;
        order.insert(p, n);
        proof {
            let o = order@;
            assert(o =~= old_order.insert(p as int, n));
            assert forall|i: int| 0 <= i < o.len() implies #[trigger] o[i] < n + 1 by {
                if i < p {
                    assert(o[i] == old_order[i]);
                } else if i > p {
                    assert(o[i] == old_order[i - 1]);
                }
            }
            assert forall|i: int, j: int| 0 <= i < o.len() && 0 <= j < o.len() && i != j implies o[i] != o[j] by {
                if i != p && j != p {
                    let oi = if i < p { i } else { i - 1 };
                    let oj = if j < p { j } else { j - 1 };
                    assert(o[i] == old_order[oi]);
                    assert(o[j] == old_order[oj]);
                } else if i == p {
                    let oj = if j < p { j } else { j - 1 };
                    assert(o[j] == old_order[oj]);
                } else {
                    let oi = if i < p { i } else { i - 1 };
                    assert(o[i] == old_order[oi]);
                }
            }
            assert forall|i: int, j: int| 0 <= i < j < o.len() implies paths_order(
                #[trigger] pv[o[i] as int],
                #[trigger] pv[o[j] as int],
            ) <= 0 by {
                let x = pv[n as int];
                if i < p && j < p {
                    assert(o[i] == old_order[i] && o[j] == old_order[j]);
                } else if i > p && j > p {
                    assert(o[i] == old_order[i - 1] && o[j] == old_order[j - 1]);
                } else if i == p {
                    // x is below every path after it.
                    assert(o[j] == old_order[j - 1]);
                    lemma_paths_order(pv[o[j] as int], x);
                } else if j == p {
                    // Every path before x is not above the one just before x.
                    assert(o[i] == old_order[i]);
                    assert(o[p as int - 1] == old_order[p as int - 1]);
                    lemma_paths_order(pv[old_order[p as int - 1] as int], x);
                    if i < p - 1 {
                        assert(paths_order(pv[old_order[i] as int], pv[old_order[p as int - 1] as int]) <= 0);
                        lemma_paths_order_trans(pv[old_order[i] as int], pv[old_order[p as int - 1] as int], x);
                    }
                } else {
                    // i < p < j
                    assert(o[i] == old_order[i] && o[j] == old_order[j - 1]);
                    lemma_paths_order(pv[o[j] as int], x);
                    assert(o[p as int - 1] == old_order[p as int - 1]);
                    lemma_paths_order(pv[old_order[p as int - 1] as int], x);
                    if i < p - 1 {
                        assert(paths_order(pv[old_order[i] as int], pv[old_order[p as int - 1] as int]) <= 0);
                        lemma_paths_order_trans(pv[old_order[i] as int], pv[old_order[p as int - 1] as int], x);
                    }
                    lemma_paths_order_trans(pv[o[i] as int], x, pv[o[j] as int]);
                }
            }
        }
        n = n + 1;
    }
    order
}

} // verus!
