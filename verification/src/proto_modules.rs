//! Combining the generated protobuf sources into one file of nested
//! modules.
//!
//! Each generated file is named after its package (`a.b.c.rs`) and must end
//! up inside `pub mod a { pub mod b { pub mod c { ... } } }`. The plan is a
//! list of operations: open a module, close the innermost one, copy a file.
//! Files are taken from the end of their sorted list; a module the next
//! file shares stays open, so with sorted names no module is declared
//! twice (Rust refuses a second declaration of the same module).
use crate::path_order::{
    bytes_order, is_permutation, lemma_bytes_order, lemma_paths_order_same_dir, sorted_by_path, sorted_order,
};
use vstd::prelude::*;

verus! {

/// One step of writing the combined file.
#[derive(Debug)]
pub enum ModuleOp {
    /// Write `pub mod <name> {`.
    Open(Vec<u8>),
    /// Write `}`.
    Close,
    /// Copy the contents of the file with this index.
    Copy(usize),
}

/// An operation as values.
pub enum ModuleOpView {
    Open(Seq<u8>),
    Close,
    Copy(int),
}

impl View for ModuleOp {
    type V = ModuleOpView;

    open spec fn view(&self) -> ModuleOpView {
        match self {
            ModuleOp::Open(name) => ModuleOpView::Open(name@),
            ModuleOp::Close => ModuleOpView::Close,
            ModuleOp::Copy(i) => ModuleOpView::Copy(*i as int),
        }
    }
}

/// What a list of operations produces: the modules still open (outermost
/// first), each copied file with the modules it was copied into, every
/// module declared (by its full path, in the order of the `Open`s), and
/// whether no `Close` ever found nothing open.
pub struct Nesting {
    pub open: Seq<Seq<u8>>,
    pub copies: Seq<(int, Seq<Seq<u8>>)>,
    pub declared: Seq<Seq<Seq<u8>>>,
    pub balanced: bool,
}

pub open spec fn nesting_step(n: Nesting, op: ModuleOpView) -> Nesting {
    match op {
        ModuleOpView::Open(name) => Nesting {
            open: n.open.push(name),
            declared: n.declared.push(n.open.push(name)),
            ..n
        },
        ModuleOpView::Close => if n.open.len() > 0 {
            Nesting { open: n.open.drop_last(), ..n }
        } else {
            Nesting { balanced: false, ..n }
        },
        ModuleOpView::Copy(i) => Nesting { copies: n.copies.push((i, n.open)), ..n },
    }
}

/// Running the operations from an empty file.
pub open spec fn nesting_of(ops: Seq<ModuleOpView>) -> Nesting
    decreases ops.len(),
{
    if ops.len() == 0 {
        Nesting { open: Seq::empty(), copies: Seq::empty(), declared: Seq::empty(), balanced: true }
    } else {
        nesting_step(nesting_of(ops.drop_last()), ops.last())
    }
}

pub open spec fn ops_view(ops: Seq<ModuleOp>) -> Seq<ModuleOpView> {
    ops.map_values(|o: ModuleOp| o@)
}

pub open spec fn names_view(names: Seq<Vec<u8>>) -> Seq<Seq<u8>> {
    names.map_values(|v: Vec<u8>| v@)
}

/// The module paths of the files, as values.
pub open spec fn paths_view(files: Seq<Vec<Vec<u8>>>) -> Seq<Seq<Seq<u8>>> {
    files.map_values(|f: Vec<Vec<u8>>| names_view(f@))
}

/// The files in the order they are taken: last in the (sorted) list first.
pub open spec fn expected_copies(files: Seq<Seq<Seq<u8>>>) -> Seq<(int, Seq<Seq<u8>>)> {
    Seq::new(files.len(), |j: int| (files.len() - 1 - j, files[files.len() - 1 - j]))
}

/// How many leading modules two paths have in common, counting on from
/// position `k`.
pub open spec fn shared_from(a: Seq<Seq<u8>>, b: Seq<Seq<u8>>, k: nat) -> nat
    decreases a.len() - k,
{
    if k < a.len() && k < b.len() && a[k as int] == b[k as int] {
        shared_from(a, b, k + 1)
    } else {
        k
    }
}

/// How many leading modules two paths have in common.
pub open spec fn shared_len(a: Seq<Seq<u8>>, b: Seq<Seq<u8>>) -> nat {
    shared_from(a, b, 0)
}

/// The module path of the `i`-th file taken (files are taken from the end
/// of the list).
pub open spec fn taken(fv: Seq<Seq<Seq<u8>>>, i: int) -> Seq<Seq<u8>> {
    fv[fv.len() - 1 - i]
}

/// The modules open when the `m`-th file is taken: none before the first,
/// then the path of the file taken before it.
pub open spec fn open_before(fv: Seq<Seq<Seq<u8>>>, m: int) -> Seq<Seq<u8>> {
    if m == 0 {
        Seq::empty()
    } else {
        taken(fv, m - 1)
    }
}

pub open spec fn closes(n: int) -> Seq<ModuleOpView> {
    Seq::new(n as nat, |i: int| ModuleOpView::Close)
}

/// Opening the modules of `path` from position `from` on.
pub open spec fn opens(path: Seq<Seq<u8>>, from: int) -> Seq<ModuleOpView> {
    path.subrange(from, path.len() as int).map_values(|name: Seq<u8>| ModuleOpView::Open(name))
}

/// The operations for the `m`-th file taken: close the open modules that
/// are not a prefix of its path, open the rest of its path, copy it.
pub open spec fn step_ops(fv: Seq<Seq<Seq<u8>>>, m: int) -> Seq<ModuleOpView> {
    let before = open_before(fv, m);
    let path = taken(fv, m);
    let l = shared_len(before, path) as int;
    closes(before.len() - l) + opens(path, l) + seq![ModuleOpView::Copy(fv.len() - 1 - m)]
}

/// The operations for the first `m` files taken.
pub open spec fn plan_upto(fv: Seq<Seq<Seq<u8>>>, m: nat) -> Seq<ModuleOpView>
    decreases m,
{
    if m == 0 {
        Seq::empty()
    } else {
        plan_upto(fv, (m - 1) as nat) + step_ops(fv, m - 1)
    }
}

/// The whole plan: every file in turn, then the modules still open closed.
pub open spec fn spec_plan(fv: Seq<Seq<Seq<u8>>>) -> Seq<ModuleOpView> {
    plan_upto(fv, fv.len()) + closes(open_before(fv, fv.len() as int).len() as int)
}

/// The modules the `m`-th file's operations declare, by full path.
pub open spec fn step_declared(fv: Seq<Seq<Seq<u8>>>, m: int) -> Seq<Seq<Seq<u8>>> {
    let path = taken(fv, m);
    let l = shared_len(open_before(fv, m), path) as int;
    Seq::new((path.len() - l) as nat, |i: int| path.take(l + i + 1))
}

/// The modules declared for the first `m` files taken.
pub open spec fn declared_upto(fv: Seq<Seq<Seq<u8>>>, m: nat) -> Seq<Seq<Seq<u8>>>
    decreases m,
{
    if m == 0 {
        Seq::empty()
    } else {
        declared_upto(fv, (m - 1) as nat) + step_declared(fv, m - 1)
    }
}

/// The module path `p` lies inside the modules `pre`.
pub open spec fn path_within(p: Seq<Seq<u8>>, pre: Seq<Seq<u8>>) -> bool {
    pre.len() <= p.len() && p.take(pre.len() as int) == pre
}

/// Modules that two files lie within hold every file between them too, as
/// they do when the list holds file names `a.b.c.rs` in sorted order.
pub open spec fn prefixes_contiguous(fv: Seq<Seq<Seq<u8>>>) -> bool {
    forall|i: int, j: int, l: int, pre: Seq<Seq<u8>>|
        0 <= i < j < l < fv.len() && #[trigger] path_within(fv[i], pre) && #[trigger] path_within(fv[l], pre)
            ==> #[trigger] path_within(fv[j], pre)
}

proof fn lemma_shared_from(a: Seq<Seq<u8>>, b: Seq<Seq<u8>>, k: nat)
    requires
        k <= a.len(),
        k <= b.len(),
        forall|j: int| 0 <= j < k ==> a[j] == b[j],
    ensures
        ({
            let l = shared_from(a, b, k);
            &&& k <= l <= a.len()
            &&& l <= b.len()
            &&& forall|j: int| 0 <= j < l ==> a[j] == b[j]
            &&& (l == a.len() || l == b.len() || a[l as int] != b[l as int])
        }),
    decreases a.len() - k,
{
    if k < a.len() && k < b.len() && a[k as int] == b[k as int] {
        lemma_shared_from(a, b, k + 1);
    }
}

/// `shared_len` is the length of the longest common prefix.
pub proof fn lemma_shared_len(a: Seq<Seq<u8>>, b: Seq<Seq<u8>>)
    ensures
        shared_len(a, b) <= a.len(),
        shared_len(a, b) <= b.len(),
        a.take(shared_len(a, b) as int) == b.take(shared_len(a, b) as int),
        forall|t: int|
            shared_len(a, b) < t <= a.len() && t <= b.len() ==> #[trigger] a.take(t) != b.take(t),
{
    lemma_shared_from(a, b, 0);
    let l = shared_len(a, b) as int;
    assert(a.take(l) =~= b.take(l));
    assert forall|t: int| l < t <= a.len() && t <= b.len() implies #[trigger] a.take(t) != b.take(t) by {
        assert(a.take(t)[l] == a[l]);
        assert(b.take(t)[l] == b[l]);
    }
}

/// `path` is declared by the operations of one of the first `m` files: it
/// is a prefix of that file's path, longer than what the path shares with
/// the modules open before it.
pub open spec fn declared_by_some_step(fv: Seq<Seq<Seq<u8>>>, m: int, path: Seq<Seq<u8>>) -> bool {
    exists|s: int, t: int|
        #![trigger taken(fv, s).take(t)]
        0 <= s < m && shared_len(open_before(fv, s), taken(fv, s)) < t <= taken(fv, s).len() && path
            == taken(fv, s).take(t)
}

proof fn lemma_declared_upto(fv: Seq<Seq<Seq<u8>>>, m: nat)
    requires
        m <= fv.len(),
    ensures
        forall|x: int|
            0 <= x < declared_upto(fv, m).len() ==> declared_by_some_step(
                fv,
                m as int,
                #[trigger] declared_upto(fv, m)[x],
            ),
    decreases m,
{
    if m > 0 {
        let p = (m - 1) as nat;
        lemma_declared_upto(fv, p);
        let d = declared_upto(fv, p);
        let e = step_declared(fv, p as int);
        let path = taken(fv, p as int);
        let l = shared_len(open_before(fv, p as int), path) as int;
        lemma_shared_len(open_before(fv, p as int), path);
        assert(declared_upto(fv, m) == d + e);
        assert forall|x: int| 0 <= x < declared_upto(fv, m).len() implies declared_by_some_step(
            fv,
            m as int,
            #[trigger] declared_upto(fv, m)[x],
        ) by {
            if x < d.len() {
                assert(declared_upto(fv, m)[x] == d[x]);
                assert(declared_by_some_step(fv, p as int, d[x]));
                let (s, t) = choose|s: int, t: int|
                    #![trigger taken(fv, s).take(t)]
                    0 <= s < p && shared_len(open_before(fv, s), taken(fv, s)) < t <= taken(fv, s).len()
                        && d[x] == taken(fv, s).take(t);
                assert(taken(fv, s).take(t) == declared_upto(fv, m)[x]);
            } else {
                let i = x - d.len();
                assert(declared_upto(fv, m)[x] == e[i]);
                assert(e[i] == path.take(l + i + 1));
                assert(taken(fv, p as int).take(l + i + 1) == declared_upto(fv, m)[x]);
            }
        }
    }
}

/// When the files are listed so that a shared module path is shared by
/// every file in between (as sorted file names are), the plan declares no
/// module twice.
pub proof fn lemma_plan_declares_once(fv: Seq<Seq<Seq<u8>>>, m: nat)
    requires
        m <= fv.len(),
        prefixes_contiguous(fv),
    ensures
        declared_upto(fv, m).no_duplicates(),
    decreases m,
{
    if m > 0 {
        let p = (m - 1) as nat;
        lemma_plan_declares_once(fv, p);
        lemma_declared_upto(fv, p);
        let d = declared_upto(fv, p);
        let e = step_declared(fv, p as int);
        let before = open_before(fv, p as int);
        let path = taken(fv, p as int);
        let l = shared_len(before, path) as int;
        lemma_shared_len(before, path);
        let all = declared_upto(fv, m);
        assert(all == d + e);
        assert forall|x: int, y: int| 0 <= x < all.len() && 0 <= y < all.len() && x != y implies all[x]
            != all[y] by {
            if x < d.len() && y < d.len() {
                assert(all[x] == d[x] && all[y] == d[y]);
            } else if x >= d.len() && y >= d.len() {
                assert(all[x] == path.take(l + (x - d.len()) + 1));
                assert(all[y] == path.take(l + (y - d.len()) + 1));
                assert(all[x].len() != all[y].len());
            } else {
                let (dx, ey) = if x < d.len() { (x, y) } else { (y, x) };
                let t = l + (ey - d.len()) + 1;
                assert(all[ey] == path.take(t));
                assert(all[dx] == d[dx]);
                if all[dx] == all[ey] {
                    assert(declared_by_some_step(fv, p as int, d[dx]));
                    let (s, t2) = choose|s: int, t2: int|
                        #![trigger taken(fv, s).take(t2)]
                        0 <= s < p && shared_len(open_before(fv, s), taken(fv, s)) < t2 <= taken(fv, s).len()
                            && d[dx] == taken(fv, s).take(t2);
                    assert(t2 == t);
                    let n = fv.len();
                    // In list order: this file, the file taken before it, and the earlier one.
                    let i = n - 1 - p;
                    let j = n - p;
                    let k = n - 1 - s;
                    assert(fv[i] == path);
                    assert(fv[j] == before);
                    assert(fv[k] == taken(fv, s));
                    let pre = path.take(t);
                    assert(path_within(fv[i], pre));
                    assert(path_within(fv[k], pre));
                    if j < k {
                        assert(path_within(fv[j], pre));
                    }
                    assert(before.take(t) == path.take(t));
                }
            }
        }
    }
}

fn same_bytes(a: &Vec<u8>, b: &Vec<u8>) -> (r: bool)
    ensures
        r == (a@ == b@),
{
    if a.len() != b.len() {
        return false;
    }
    let mut i: usize = 0;
    while i < a.len()
        invariant
            i <= a@.len(),
            a@.len() == b@.len(),
            forall|j: int| 0 <= j < i ==> a@[j] == b@[j],
        decreases a@.len() - i,
    {
        if a[i] != b[i] {
            return false;
        }
        i = i + 1;
    }
    assert(a@ =~= b@);
    true
}

fn copy_name(a: &Vec<u8>) -> (r: Vec<u8>)
    ensures
        r@ == a@,
{
    let mut r: Vec<u8> = Vec::new();
    let mut i: usize = 0;
    while i < a.len()
        invariant
            i <= a@.len(),
            r@ == a@.take(i as int),
        decreases a@.len() - i,
    {
        r.push(a[i]);
        assert(a@.take(i as int + 1) =~= a@.take(i as int).push(a@[i as int]));
        i = i + 1;
    }
    assert(a@.take(i as int) =~= a@);
    r
}

/// Plans the combined file for generated files whose module paths are
/// `files` (sorted). Files are taken from the end of the list; for each,
/// the open modules that are not a prefix of its path are closed, the
/// missing ones opened, and the file copied; at the end every module is
/// closed.
#[verifier::rlimit(60)]
pub fn plan_proto_modules(files: &Vec<Vec<Vec<u8>>>) -> (ops: Vec<ModuleOp>)
    ensures
        ops_view(ops@) == spec_plan(paths_view(files@)),
        nesting_of(ops_view(ops@)) == (Nesting {
            open: Seq::empty(),
            copies: expected_copies(paths_view(files@)),
            declared: declared_upto(paths_view(files@), files@.len()),
            balanced: true,
        }),
        prefixes_contiguous(paths_view(files@)) ==> nesting_of(ops_view(ops@)).declared.no_duplicates(),
{
    let ghost fv = paths_view(files@);
    let mut ops: Vec<ModuleOp> = Vec::new();
    let mut current: Vec<Vec<u8>> = Vec::new();
    let mut remaining = files.len();
    assert(ops_view(ops@) =~= Seq::<ModuleOpView>::empty());
    assert(names_view(current@) =~= Seq::<Seq<u8>>::empty());
    assert(expected_copies(fv).take(0) =~= Seq::<(int, Seq<Seq<u8>>)>::empty());
    while remaining > 0
        invariant
            remaining <= files@.len(),
            fv == paths_view(files@),
            ops_view(ops@) == plan_upto(fv, (files@.len() - remaining) as nat),
            names_view(current@) == open_before(fv, files@.len() - remaining),
            nesting_of(ops_view(ops@)) == (Nesting {
                open: names_view(current@),
                copies: expected_copies(fv).take(files@.len() - remaining),
                declared: declared_upto(fv, (files@.len() - remaining) as nat),
                balanced: true,
            }),
        decreases remaining,
    {
        let f = remaining - 1;
        let ghost m = files@.len() - remaining;
        let parts = &files[f];
        let ghost pv = names_view(parts@);
        let ghost cur0 = names_view(current@);
        let ghost base = ops_view(ops@);
        let ghost copies = expected_copies(fv).take(files@.len() - remaining);
        let ghost decl = declared_upto(fv, m as nat);
        assert(pv == fv[f as int]);
        assert(pv == taken(fv, m));
        // Length of the common prefix of the open modules and this path.
        let mut k: usize = 0;
        while k < current.len() && k < parts.len() && same_bytes(&current[k], &parts[k])
            invariant
                cur0 == names_view(current@),
                pv == names_view(parts@),
                k <= current@.len(),
                k <= parts@.len(),
                forall|j: int| 0 <= j < k ==> current@[j]@ == parts@[j]@,
                shared_len(cur0, pv) == shared_from(cur0, pv, k as nat),
            decreases current@.len() - k,
        {
            assert(cur0[k as int] == pv[k as int]);
            k = k + 1;
        }
        assert(shared_from(cur0, pv, k as nat) == k);
        assert(names_view(current@).take(current@.len() as int) =~= cur0);
        assert(ops_view(ops@) =~= base + closes(0));
        // Close the modules this path does not share.
        while current.len() > k
            invariant
                k <= current@.len() <= cur0.len(),
                names_view(current@) == cur0.take(current@.len() as int),
                forall|j: int| 0 <= j < k ==> current@[j]@ == parts@[j]@,
                ops_view(ops@) == base + closes(cur0.len() - current@.len()),
                nesting_of(ops_view(ops@)) == (Nesting {
                    open: names_view(current@),
                    copies: copies,
                    declared: decl,
                    balanced: true,
                }),
            decreases current@.len(),
        {
            let ghost before = ops@;
            let ghost before_current = current@;
            ops.push(ModuleOp::Close);
            current.pop();
            assert(ops_view(ops@) =~= ops_view(before).push(ModuleOpView::Close));
            assert(ops_view(ops@).drop_last() =~= ops_view(before));
            assert(closes(cur0.len() - current@.len()) =~= closes(cur0.len() - before_current.len()).push(
                ModuleOpView::Close,
            ));
            assert(names_view(current@) =~= names_view(before_current).drop_last());
            assert(names_view(current@) =~= cur0.take(current@.len() as int));
        }
        assert(names_view(current@) =~= pv.take(k as int));
        assert(pv.subrange(k as int, k as int).map_values(|name: Seq<u8>| ModuleOpView::Open(name))
            =~= Seq::<ModuleOpView>::empty());
        assert(Seq::new(0, |i: int| pv.take(k + i + 1)) =~= Seq::<Seq<Seq<u8>>>::empty());
        assert(decl + Seq::new(0, |i: int| pv.take(k + i + 1)) =~= decl);
        assert(ops_view(ops@) =~= base + closes(cur0.len() - k) + pv.subrange(k as int, k as int).map_values(
            |name: Seq<u8>| ModuleOpView::Open(name),
        ));
        // Open the modules this path still needs.
        let mut t = k;
        while t < parts.len()
            invariant
                pv == names_view(parts@),
                k <= t <= parts@.len(),
                current@.len() == t,
                names_view(current@) == pv.take(t as int),
                ops_view(ops@) == base + closes(cur0.len() - k) + pv.subrange(k as int, t as int).map_values(
                    |name: Seq<u8>| ModuleOpView::Open(name),
                ),
                nesting_of(ops_view(ops@)) == (Nesting {
                    open: names_view(current@),
                    copies: copies,
                    declared: decl + Seq::new((t - k) as nat, |i: int| pv.take(k + i + 1)),
                    balanced: true,
                }),
            decreases parts@.len() - t,
        {
            let ghost before = ops@;
            let ghost before_current = current@;
            ops.push(ModuleOp::Open(copy_name(&parts[t])));
            current.push(copy_name(&parts[t]));
            assert(ops_view(ops@) =~= ops_view(before).push(ModuleOpView::Open(pv[t as int])));
            assert(ops_view(ops@).drop_last() =~= ops_view(before));
            assert(names_view(current@) =~= names_view(before_current).push(parts@[t as int]@));
            assert(names_view(current@) =~= pv.take(t + 1));
            assert(pv.subrange(k as int, t + 1).map_values(|name: Seq<u8>| ModuleOpView::Open(name)) =~= pv.subrange(
                k as int,
                t as int,
            ).map_values(|name: Seq<u8>| ModuleOpView::Open(name)).push(ModuleOpView::Open(pv[t as int])));
            assert(Seq::new((t + 1 - k) as nat, |i: int| pv.take(k + i + 1)) =~= Seq::new(
                (t - k) as nat,
                |i: int| pv.take(k + i + 1),
            ).push(pv.take(t + 1)));
            t = t + 1;
        }
        assert(names_view(current@) =~= pv);
        assert(step_ops(fv, m) =~= closes(cur0.len() - k) + pv.subrange(k as int, pv.len() as int).map_values(
            |name: Seq<u8>| ModuleOpView::Open(name),
        ) + seq![ModuleOpView::Copy(f as int)]);
        assert(step_declared(fv, m) =~= Seq::new((t - k) as nat, |i: int| pv.take(k + i + 1)));
        let ghost before = ops@;
        ops.push(ModuleOp::Copy(f));
        assert(ops_view(ops@) =~= ops_view(before).push(ModuleOpView::Copy(f as int)));
        assert(ops_view(ops@).drop_last() =~= ops_view(before));
        assert(ops_view(ops@) =~= plan_upto(fv, (m + 1) as nat));
        assert(expected_copies(fv).take(files@.len() - remaining + 1) =~= expected_copies(fv).take(
            files@.len() - remaining,
        ).push((f as int, fv[f as int])));
        remaining = f;
    }
    assert(expected_copies(fv).take(files@.len() as int) =~= expected_copies(fv));
    let ghost last = names_view(current@);
    let ghost base = ops_view(ops@);
    assert(names_view(current@).take(current@.len() as int) =~= last);
    assert(ops_view(ops@) =~= base + closes(0));
    // Close whatever is still open.
    while current.len() > 0
        invariant
            current@.len() <= last.len(),
            names_view(current@) == last.take(current@.len() as int),
            ops_view(ops@) == base + closes(last.len() - current@.len()),
            nesting_of(ops_view(ops@)) == (Nesting {
                open: names_view(current@),
                copies: expected_copies(fv),
                declared: declared_upto(fv, files@.len()),
                balanced: true,
            }),
        decreases current@.len(),
    {
        let ghost before = ops@;
        let ghost before_current = current@;
        ops.push(ModuleOp::Close);
        current.pop();
        assert(ops_view(ops@) =~= ops_view(before).push(ModuleOpView::Close));
        assert(ops_view(ops@).drop_last() =~= ops_view(before));
        assert(closes(last.len() - current@.len()) =~= closes(last.len() - before_current.len()).push(
            ModuleOpView::Close,
        ));
        assert(names_view(current@) =~= names_view(before_current).drop_last());
        assert(names_view(current@) =~= last.take(current@.len() as int));
    }
    assert(names_view(current@) =~= Seq::<Seq<u8>>::empty());
    assert(ops_view(ops@) =~= spec_plan(fv));
    proof {
        if prefixes_contiguous(fv) {
            lemma_plan_declares_once(fv, fv.len());
        }
    }
    ops
}

// ---------------------------------------------------------------------------
// File names and module paths
// ---------------------------------------------------------------------------
/// The byte `.` that separates the modules in a file name.
pub open spec fn dot() -> u8 {
    46u8
}

/// The modules of a path joined by dots: `a.b.c`.
pub open spec fn join_path(p: Seq<Seq<u8>>) -> Seq<u8>
    decreases p.len(),
{
    if p.len() == 0 {
        Seq::empty()
    } else if p.len() == 1 {
        p[0]
    } else {
        join_path(p.drop_last()) + seq![dot()] + p.last()
    }
}

/// No module name of the path holds a dot.
pub open spec fn dot_free(p: Seq<Seq<u8>>) -> bool {
    forall|i: int, k: int| 0 <= i < p.len() && 0 <= k < p[i].len() ==> #[trigger] p[i][k] != dot()
}

/// The name of the generated file for a module path: `a.b.c.rs`.
pub open spec fn file_name(p: Seq<Seq<u8>>) -> Seq<u8> {
    join_path(p) + seq![dot(), 114u8, 115u8]
}

/// `s` begins with `q`.
pub open spec fn starts_with(s: Seq<u8>, q: Seq<u8>) -> bool {
    q.len() <= s.len() && s.take(q.len() as int) == q
}

/// `x` comes before `y` in byte order, as file names are sorted.
pub open spec fn bytes_lt(x: Seq<u8>, y: Seq<u8>) -> bool {
    exists|k: int|
        #![trigger x.take(k), y.take(k)]
        0 <= k <= x.len() && k <= y.len() && x.take(k) == y.take(k) && ((k == x.len() && k < y.len()) || (k
            < x.len() && k < y.len() && x[k] < y[k]))
}

pub open spec fn bytes_le(x: Seq<u8>, y: Seq<u8>) -> bool {
    x == y || bytes_lt(x, y)
}

/// The module path a generated file's stem names: its parts between the
/// dots (`a.b.c` gives `a`, `b`, `c`).
pub fn split_module_path(stem: &[u8]) -> (path: Vec<Vec<u8>>)
    ensures
        path@.len() >= 1,
        dot_free(names_view(path@)),
        join_path(names_view(path@)) == stem@,
{
    let mut path: Vec<Vec<u8>> = Vec::new();
    let mut part: Vec<u8> = Vec::new();
    let mut i: usize = 0;
    while i < stem.len()
        invariant
            i <= stem@.len(),
            dot_free(names_view(path@)),
            forall|k: int| 0 <= k < part@.len() ==> part@[k] != dot(),
            join_path(names_view(path@).push(part@)) == stem@.take(i as int),
        decreases stem@.len() - i,
    {
        let ghost before_path = names_view(path@);
        let ghost before_part = part@;
        if stem[i] == 46u8 {
            path.push(part);
            part = Vec::new();
            assert(names_view(path@) =~= before_path.push(before_part));
            let ghost np = names_view(path@).push(part@);
            assert(np.drop_last() =~= names_view(path@));
            assert(join_path(np) =~= join_path(names_view(path@)) + seq![dot()] + Seq::<u8>::empty());
        } else {
            part.push(stem[i]);
            proof {
                let np = names_view(path@).push(part@);
                let op = before_path.push(before_part);
                if before_path.len() == 0 {
                    assert(join_path(np) == np[0]);
                    assert(join_path(op) == op[0]);
                } else {
                    assert(np.drop_last() =~= before_path);
                    assert(op.drop_last() =~= before_path);
                }
                assert(join_path(np) =~= join_path(op).push(stem@[i as int]));
            }
        }
        assert(stem@.take(i + 1) =~= stem@.take(i as int).push(stem@[i as int]));
        i = i + 1;
    }
    let ghost old_names = names_view(path@);
    let ghost last_part = part@;
    path.push(part);
    assert(stem@.take(stem@.len() as int) =~= stem@);
    proof {
        let pv = names_view(path@);
        assert(pv =~= old_names.push(last_part));
        assert forall|i: int, k: int| 0 <= i < pv.len() && 0 <= k < pv[i].len() implies #[trigger] pv[i][k]
            != dot() by {
            if i < pv.len() - 1 {
                assert(pv[i] == old_names[i]);
                assert(old_names[i][k] != dot());
            } else {
                assert(pv[i] == last_part);
            }
        }
    }
    path
}

/// A path of two or more modules joins as its first module, a dot, and
/// the rest joined.
proof fn lemma_join_head(p: Seq<Seq<u8>>)
    requires
        p.len() >= 2,
    ensures
        join_path(p) == p[0] + seq![dot()] + join_path(p.drop_first()),
    decreases p.len(),
{
    if p.len() == 2 {
        assert(join_path(p.drop_last()) == p[0]);
        assert(join_path(p.drop_first()) == p[1]);
        assert(join_path(p) =~= p[0] + seq![dot()] + join_path(p.drop_first()));
    } else {
        lemma_join_head(p.drop_last());
        assert(p.drop_last().drop_first() =~= p.drop_first().drop_last());
        assert(p.drop_last()[0] == p[0]);
        assert(p.drop_first().last() == p.last());
        assert(join_path(p.drop_first()) == join_path(p.drop_first().drop_last()) + seq![dot()]
            + p.drop_first().last());
        assert(join_path(p) =~= p[0] + seq![dot()] + join_path(p.drop_first()));
    }
}

/// A file's name begins with the joined prefix of its path and a dot.
proof fn lemma_name_starts_with_prefix(p: Seq<Seq<u8>>, t: int)
    requires
        1 <= t <= p.len(),
    ensures
        starts_with(file_name(p), join_path(p.take(t)) + seq![dot()]),
    decreases p.len(),
{
    if p.len() == 1 {
        assert(p.take(t) =~= p);
        assert(file_name(p).take(join_path(p).len() as int + 1) =~= join_path(p) + seq![dot()]);
    } else {
        let rest = p.drop_first();
        lemma_join_head(p);
        if t == 1 {
            assert(join_path(p.take(1)) == p[0]);
            assert(file_name(p) =~= p[0] + seq![dot()] + (join_path(rest) + seq![dot(), 114u8, 115u8]));
            assert(file_name(p).take(p[0].len() as int + 1) =~= p[0] + seq![dot()]);
        } else {
            lemma_name_starts_with_prefix(rest, t - 1);
            lemma_join_head(p.take(t));
            assert(p.take(t).drop_first() =~= rest.take(t - 1));
            assert(p.take(t)[0] == p[0]);
            let q = join_path(rest.take(t - 1)) + seq![dot()];
            assert(file_name(p) =~= p[0] + seq![dot()] + file_name(rest));
            assert(join_path(p.take(t)) + seq![dot()] =~= p[0] + seq![dot()] + q);
            let n = p[0].len() as int + 1;
            assert(file_name(p).take(n + q.len() as int) =~= p[0] + seq![dot()] + file_name(rest).take(q.len() as int));
        }
    }
}

/// Two strings that begin with a dot-free name and a dot, one beginning
/// with the other, have the same first name.
proof fn lemma_same_first_name(a: Seq<u8>, u: Seq<u8>, b: Seq<u8>, v: Seq<u8>)
    requires
        forall|k: int| 0 <= k < a.len() ==> a[k] != dot(),
        forall|k: int| 0 <= k < b.len() ==> b[k] != dot(),
        starts_with(a + seq![dot()] + u, b + seq![dot()] + v),
    ensures
        a == b,
        starts_with(u, v),
{
    let s = a + seq![dot()] + u;
    let q = b + seq![dot()] + v;
    assert(forall|k: int| 0 <= k < q.len() ==> s[k] == #[trigger] q[k]) by {
        assert forall|k: int| 0 <= k < q.len() implies s[k] == #[trigger] q[k] by {
            assert(s.take(q.len() as int)[k] == s[k]);
        }
    }
    if a.len() < b.len() {
        assert(s[a.len() as int] == dot());
        assert(q[a.len() as int] == b[a.len() as int]);
    } else if b.len() < a.len() {
        assert(q[b.len() as int] == dot());
        assert(s[b.len() as int] == a[b.len() as int]);
    } else {
        assert forall|k: int| 0 <= k < a.len() implies a[k] == b[k] by {
            assert(s[k] == a[k]);
            assert(q[k] == b[k]);
        }
        assert(a =~= b);
        let n = a.len() + 1;
        assert forall|k: int| 0 <= k < v.len() implies u[k] == v[k] by {
            assert(s[n + k] == u[k]);
            assert(q[n + k] == v[k]);
        }
        assert(u.take(v.len() as int) =~= v);
    }
}

/// A file's name begins with a module path joined and a dot only if that
/// module path is a prefix of the file's path.
proof fn lemma_prefix_of_name(p: Seq<Seq<u8>>, pre: Seq<Seq<u8>>)
    requires
        p.len() >= 1,
        pre.len() >= 1,
        dot_free(p),
        dot_free(pre),
        starts_with(file_name(p), join_path(pre) + seq![dot()]),
    ensures
        pre.len() <= p.len(),
        p.take(pre.len() as int) == pre,
    decreases pre.len(),
{
    let rest = p.drop_first();
    let prest = pre.drop_first();
    assert(forall|k: int| 0 <= k < p[0].len() ==> p[0][k] != dot()) by {
        assert forall|k: int| 0 <= k < p[0].len() implies p[0][k] != dot() by {
            assert(p[0][k] != dot());
        }
    }
    assert(forall|k: int| 0 <= k < pre[0].len() ==> pre[0][k] != dot()) by {
        assert forall|k: int| 0 <= k < pre[0].len() implies pre[0][k] != dot() by {
            assert(pre[0][k] != dot());
        }
    }
    let tail: Seq<u8> = if p.len() == 1 {
        seq![114u8, 115u8]
    } else {
        file_name(rest)
    };
    if p.len() == 1 {
        assert(file_name(p) =~= p[0] + seq![dot()] + tail);
    } else {
        lemma_join_head(p);
        assert(file_name(p) =~= p[0] + seq![dot()] + tail);
    }
    let ptail: Seq<u8> = if pre.len() == 1 {
        Seq::empty()
    } else {
        join_path(prest) + seq![dot()]
    };
    if pre.len() == 1 {
        assert(join_path(pre) + seq![dot()] =~= pre[0] + seq![dot()] + ptail);
    } else {
        lemma_join_head(pre);
        assert(join_path(pre) + seq![dot()] =~= pre[0] + seq![dot()] + ptail);
    }
    lemma_same_first_name(p[0], tail, pre[0], ptail);
    if pre.len() == 1 {
        assert(p.take(1) =~= pre);
    } else {
        if p.len() == 1 {
            // The rest of the name is `rs`, which holds no dot.
            let jl = join_path(prest).len();
            assert(ptail[jl as int] == dot());
            assert(tail.take(ptail.len() as int)[jl as int] == tail[jl as int]);
        } else {
            assert forall|i: int, k: int| 0 <= i < rest.len() && 0 <= k < rest[i].len() implies #[trigger] rest[i][k]
                != dot() by {
                assert(rest[i] == p[i + 1]);
            }
            assert forall|i: int, k: int| 0 <= i < prest.len() && 0 <= k < prest[i].len() implies #[trigger] prest[i][k]
                != dot() by {
                assert(prest[i] == pre[i + 1]);
            }
            lemma_prefix_of_name(rest, prest);
            assert(p.take(pre.len() as int) =~= seq![p[0]] + rest.take(prest.len() as int));
            assert(pre =~= seq![pre[0]] + prest);
        }
    }
}

/// A string that lies between two strings in byte order begins with every
/// prefix the two share.
proof fn lemma_between_shares_prefix(x: Seq<u8>, y: Seq<u8>, z: Seq<u8>, q: Seq<u8>)
    requires
        bytes_le(x, y),
        bytes_le(y, z),
        starts_with(x, q),
        starts_with(z, q),
    ensures
        starts_with(y, q),
{
    if !starts_with(y, q) && x != y {
        let k = choose|k: int|
            #![trigger x.take(k), y.take(k)]
            0 <= k <= x.len() && k <= y.len() && x.take(k) == y.take(k) && ((k == x.len() && k < y.len()) || (k
                < x.len() && k < y.len() && x[k] < y[k]));
        assert forall|m: int| 0 <= m < k implies x[m] == y[m] by {
            assert(x.take(k)[m] == x[m]);
            assert(y.take(k)[m] == y[m]);
        }
        assert forall|m: int| 0 <= m < q.len() implies x[m] == q[m] && z[m] == q[m] by {
            assert(x.take(q.len() as int)[m] == x[m]);
            assert(z.take(q.len() as int)[m] == z[m]);
        }
        if k >= q.len() {
            assert(y.take(q.len() as int) =~= q);
        } else {
            // y and x first differ at k, inside q, with y above: y is above z too.
            assert(k < x.len());
            assert(y[k] > z[k]);
            if y == z {
            } else {
                let k2 = choose|k2: int|
                    #![trigger y.take(k2), z.take(k2)]
                    0 <= k2 <= y.len() && k2 <= z.len() && y.take(k2) == z.take(k2) && ((k2 == y.len() && k2
                        < z.len()) || (k2 < y.len() && k2 < z.len() && y[k2] < z[k2]));
                if k2 <= k {
                    if k2 < k {
                        assert(x[k2] == y[k2]);
                        assert(x[k2] == q[k2] && z[k2] == q[k2]);
                    }
                } else {
                    assert(y.take(k2)[k] == y[k]);
                    assert(z.take(k2)[k] == z[k]);
                }
            }
        }
    }
}

/// Sorted file names list their module paths so that a module path two
/// files share is shared by every file between them: the plan then
/// declares no module twice.
pub proof fn lemma_sorted_names_contiguous(fv: Seq<Seq<Seq<u8>>>)
    requires
        forall|i: int| 0 <= i < fv.len() ==> #[trigger] fv[i].len() >= 1 && dot_free(fv[i]),
        forall|i: int, j: int| 0 <= i < j < fv.len() ==> bytes_le(#[trigger] file_name(fv[i]), #[trigger] file_name(fv[j])),
    ensures
        prefixes_contiguous(fv),
{
    assert forall|i: int, j: int, l: int, pre: Seq<Seq<u8>>|
        0 <= i < j < l < fv.len() && #[trigger] path_within(fv[i], pre) && #[trigger] path_within(fv[l], pre)
            implies #[trigger] path_within(fv[j], pre) by {
        assert(fv[j].len() >= 1 && dot_free(fv[j]));
        let t = pre.len() as int;
        if t == 0 {
            assert(fv[j].take(0) =~= pre);
        } else {
            let q = join_path(pre) + seq![dot()];
            assert(fv[i].len() >= 1 && dot_free(fv[i]));
            assert(fv[l].len() >= 1 && dot_free(fv[l]));
            lemma_name_starts_with_prefix(fv[i], t);
            lemma_name_starts_with_prefix(fv[l], t);
            assert(bytes_le(file_name(fv[i]), file_name(fv[j])));
            assert(bytes_le(file_name(fv[j]), file_name(fv[l])));
            lemma_between_shares_prefix(file_name(fv[i]), file_name(fv[j]), file_name(fv[l]), q);
            assert forall|a: int, k: int| 0 <= a < pre.len() && 0 <= k < pre[a].len() implies #[trigger] pre[a][k]
                != dot() by {
                assert(pre[a] == fv[i][a]);
            }
            lemma_prefix_of_name(fv[j], pre);
        }
    }
}

/// Splitting a name at its dots is unique: two dot-free paths that join
/// to the same name are the same path.
proof fn lemma_split_unique(p: Seq<Seq<u8>>, p2: Seq<Seq<u8>>)
    requires
        p.len() >= 1,
        p2.len() >= 1,
        dot_free(p),
        dot_free(p2),
        join_path(p) == join_path(p2),
    ensures
        p == p2,
{
    lemma_name_starts_with_prefix(p2, p2.len() as int);
    assert(p2.take(p2.len() as int) =~= p2);
    lemma_prefix_of_name(p, p2);
    lemma_name_starts_with_prefix(p, p.len() as int);
    assert(p.take(p.len() as int) =~= p);
    lemma_prefix_of_name(p2, p);
    assert(p =~= p2);
}

/// `p` is what `stem` splits into at its dots.
pub open spec fn splits(p: Seq<Seq<u8>>, stem: Seq<u8>) -> bool {
    p.len() >= 1 && dot_free(p) && join_path(p) == stem
}

/// The module path a file stem names: the dot-free parts it splits into.
pub open spec fn stem_path(stem: Seq<u8>) -> Seq<Seq<u8>> {
    choose|p: Seq<Seq<u8>>| splits(p, stem)
}

pub open spec fn stem_paths(stems: Seq<Vec<u8>>) -> Seq<Seq<Seq<u8>>> {
    stems.map_values(|s: Vec<u8>| stem_path(s@))
}

/// The file name of a stem: `a.b.c` gives `a.b.c.rs`.
pub open spec fn stem_file_name(stem: Seq<u8>) -> Seq<u8> {
    stem + seq![dot(), 114u8, 115u8]
}

/// Plans the combined file for the generated files with these stems
/// (`a.b.c` for `a.b.c.rs`), listed in the order of their sorted file
/// names. Each stem is split at its dots into its module path; when the
/// file names are sorted, no module is declared twice.
pub fn plan_proto_files(stems: &Vec<Vec<u8>>) -> (ops: Vec<ModuleOp>)
    ensures
        ops_view(ops@) == spec_plan(stem_paths(stems@)),
        nesting_of(ops_view(ops@)) == (Nesting {
            open: Seq::empty(),
            copies: expected_copies(stem_paths(stems@)),
            declared: declared_upto(stem_paths(stems@), stems@.len()),
            balanced: true,
        }),
        (forall|i: int, j: int|
            0 <= i < j < stems@.len() ==> bytes_le(
                #[trigger] stem_file_name(stems@[i]@),
                #[trigger] stem_file_name(stems@[j]@),
            )) ==> nesting_of(ops_view(ops@)).declared.no_duplicates(),
{
    let mut files: Vec<Vec<Vec<u8>>> = Vec::new();
    let mut i: usize = 0;
    while i < stems.len()
        invariant
            i <= stems@.len(),
            files@.len() == i,
            forall|k: int| 0 <= k < i ==> #[trigger] paths_view(files@)[k] == stem_paths(stems@)[k],
            forall|k: int| 0 <= k < i ==> splits(#[trigger] paths_view(files@)[k], stems@[k]@),
        decreases stems@.len() - i,
    {
        let path = split_module_path(stems[i].as_slice());
        proof {
            let pv = names_view(path@);
            assert(splits(pv, stems@[i as int]@));
            let c = stem_path(stems@[i as int]@);
            assert(splits(c, stems@[i as int]@));
            lemma_split_unique(pv, c);
        }
        let ghost before = files@;
        files.push(path);
        proof {
            assert forall|k: int| 0 <= k < i + 1 implies #[trigger] paths_view(files@)[k] == stem_paths(stems@)[k]
                && splits(paths_view(files@)[k], stems@[k]@) by {
                if k < i {
                    assert(files@[k] == before[k]);
                    assert(paths_view(before)[k] == stem_paths(stems@)[k]);
                    assert(splits(paths_view(before)[k], stems@[k]@));
                }
            }
        }
        i = i + 1;
    }
    assert(paths_view(files@) =~= stem_paths(stems@));
    let ops = plan_proto_modules(&files);
    proof {
        let fv = stem_paths(stems@);
        if forall|i: int, j: int|
            0 <= i < j < stems@.len() ==> bytes_le(
                #[trigger] stem_file_name(stems@[i]@),
                #[trigger] stem_file_name(stems@[j]@),
            ) {
            assert forall|i: int| 0 <= i < fv.len() implies #[trigger] fv[i].len() >= 1 && dot_free(fv[i]) by {
                assert(splits(paths_view(files@)[i], stems@[i]@));
            }
            assert forall|i: int, j: int| 0 <= i < j < fv.len() implies bytes_le(
                #[trigger] file_name(fv[i]),
                #[trigger] file_name(fv[j]),
            ) by {
                assert(splits(paths_view(files@)[i], stems@[i]@));
                assert(splits(paths_view(files@)[j], stems@[j]@));
                assert(file_name(fv[i]) == stem_file_name(stems@[i]@));
                assert(file_name(fv[j]) == stem_file_name(stems@[j]@));
            }
            lemma_sorted_names_contiguous(fv);
        }
    }
    ops
}

// ---------------------------------------------------------------------------
// A directory listing
// ---------------------------------------------------------------------------
/// Byte order as the existence of a first difference, from the comparison.
proof fn lemma_order_gives_le(x: Seq<u8>, y: Seq<u8>)
    requires
        bytes_order(x, y) <= 0,
    ensures
        bytes_le(x, y),
    decreases x.len(),
{
    lemma_bytes_order(x, y);
    if x != y {
        if x.len() == 0 || x[0] < y[0] {
            assert(x.take(0) =~= y.take(0));
        } else {
            let (xt, yt) = (x.drop_first(), y.drop_first());
            lemma_order_gives_le(xt, yt);
            lemma_bytes_order(xt, yt);
            let k = choose|k: int|
                #![trigger xt.take(k), yt.take(k)]
                0 <= k <= xt.len() && k <= yt.len() && xt.take(k) == yt.take(k) && ((k == xt.len() && k
                    < yt.len()) || (k < xt.len() && k < yt.len() && xt[k] < yt[k]));
            assert(x.take(k + 1) =~= seq![x[0]] + xt.take(k));
            assert(y.take(k + 1) =~= seq![y[0]] + yt.take(k));
            assert(x.take(k + 1) == y.take(k + 1));
        }
    }
}

/// A copy of file `k` of the sorted list becomes a copy of the file the
/// order puts there.
pub open spec fn copy_in_listing(op: ModuleOpView, order: Seq<usize>) -> ModuleOpView {
    match op {
        ModuleOpView::Copy(k) => ModuleOpView::Copy(order[k] as int),
        _ => op,
    }
}

/// The module paths of the files in the order given.
pub open spec fn ordered_stem_paths(stems: Seq<Vec<u8>>, order: Seq<usize>) -> Seq<Seq<Seq<u8>>> {
    Seq::new(order.len(), |k: int| stem_path(stems[order[k] as int]@))
}

/// The plan for a directory listing taken in the given order, its copies
/// naming files by their place in the listing.
pub open spec fn listing_plan(stems: Seq<Vec<u8>>, order: Seq<usize>) -> Seq<ModuleOpView> {
    spec_plan(ordered_stem_paths(stems, order)).map_values(|op: ModuleOpView| copy_in_listing(op, order))
}

/// All the paths lie in one directory and end in the name of their stem's
/// file.
pub open spec fn one_directory(paths: Seq<Seq<Seq<u8>>>, stems: Seq<Vec<u8>>) -> bool {
    &&& forall|i: int| 0 <= i < paths.len() ==> #[trigger] paths[i].len() >= 1
    &&& forall|i: int| 0 <= i < paths.len() ==> #[trigger] paths[i].last() == stem_file_name(stems[i]@)
    &&& forall|i: int, j: int|
        0 <= i < paths.len() && 0 <= j < paths.len() ==> #[trigger] paths[i].drop_last() == #[trigger] paths[j].drop_last()
}

/// Every copy in a plan names one of its files.
proof fn lemma_plan_copies_in_range(fv: Seq<Seq<Seq<u8>>>, m: nat)
    requires
        m <= fv.len(),
    ensures
        forall|i: int|
            0 <= i < plan_upto(fv, m).len() ==> (#[trigger] plan_upto(fv, m)[i] matches ModuleOpView::Copy(k) ==> 0
                <= k < fv.len()),
    decreases m,
{
    if m > 0 {
        lemma_plan_copies_in_range(fv, (m - 1) as nat);
        let a = plan_upto(fv, (m - 1) as nat);
        let b = step_ops(fv, m - 1);
        assert(plan_upto(fv, m) == a + b);
        let before = open_before(fv, m - 1);
        let path = taken(fv, m - 1);
        let l = shared_len(before, path) as int;
        lemma_shared_len(before, path);
        assert forall|i: int| 0 <= i < plan_upto(fv, m).len() implies (#[trigger] plan_upto(fv, m)[i] matches ModuleOpView::Copy(
            k,
        ) ==> 0 <= k < fv.len()) by {
            if i < a.len() {
                assert(plan_upto(fv, m)[i] == a[i]);
            } else {
                let j = i - a.len();
                assert(plan_upto(fv, m)[i] == b[j]);
                let c = closes(before.len() - l);
                let o = opens(path, l);
                if j < c.len() {
                    assert(b[j] == c[j]);
                } else if j < c.len() + o.len() {
                    assert(b[j] == o[j - c.len()]);
                }
            }
        }
    }
}

proof fn lemma_listing_plan_copies(fv: Seq<Seq<Seq<u8>>>)
    ensures
        forall|i: int|
            0 <= i < spec_plan(fv).len() ==> (#[trigger] spec_plan(fv)[i] matches ModuleOpView::Copy(k) ==> 0 <= k
                < fv.len()),
{
    lemma_plan_copies_in_range(fv, fv.len());
    let a = plan_upto(fv, fv.len());
    assert forall|i: int| 0 <= i < spec_plan(fv).len() implies (#[trigger] spec_plan(fv)[i] matches ModuleOpView::Copy(
        k,
    ) ==> 0 <= k < fv.len()) by {
        if i < a.len() {
            assert(spec_plan(fv)[i] == a[i]);
        }
    }
}

/// Renaming the copied files changes no module that is opened.
proof fn lemma_nesting_without_copies(ops: Seq<ModuleOpView>, order: Seq<usize>)
    ensures
        nesting_of(ops.map_values(|op: ModuleOpView| copy_in_listing(op, order))).declared == nesting_of(ops).declared,
        nesting_of(ops.map_values(|op: ModuleOpView| copy_in_listing(op, order))).open == nesting_of(ops).open,
    decreases ops.len(),
{
    let m = ops.map_values(|op: ModuleOpView| copy_in_listing(op, order));
    if ops.len() > 0 {
        assert(m.drop_last() =~= ops.drop_last().map_values(|op: ModuleOpView| copy_in_listing(op, order)));
        lemma_nesting_without_copies(ops.drop_last(), order);
    }
}

/// Plans the combined file for a directory listing: `paths[i]` is the
/// path of a generated file (its names, directory first) and `stems[i]` its
/// stem. The files are taken in path order (from the end of the sorted
/// list), each stem split at its dots into its module path, and every copy
/// names the file by its place in the listing. When all the files lie in
/// one directory, no module is declared twice.
pub fn plan_proto_listing(paths: &Vec<Vec<Vec<u8>>>, stems: &Vec<Vec<u8>>) -> (ops: Vec<ModuleOp>)
    requires
        paths@.len() == stems@.len(),
    ensures
        exists|order: Seq<usize>|
            #![trigger listing_plan(stems@, order)]
            is_permutation(order, paths@.len()) && sorted_by_path(
                order,
                paths@.map_values(|p: Vec<Vec<u8>>| p@.map_values(|v: Vec<u8>| v@)),
            ) && ops_view(ops@) == listing_plan(stems@, order),
        one_directory(paths@.map_values(|p: Vec<Vec<u8>>| p@.map_values(|v: Vec<u8>| v@)), stems@)
            ==> nesting_of(ops_view(ops@)).declared.no_duplicates(),
{
    let ghost pv = paths@.map_values(|p: Vec<Vec<u8>>| p@.map_values(|v: Vec<u8>| v@));
    let order = sorted_order(paths);
    let mut sorted_stems: Vec<Vec<u8>> = Vec::new();
    let mut k: usize = 0;
    while k < order.len()
        invariant
            k <= order@.len(),
            is_permutation(order@, paths@.len()),
            paths@.len() == stems@.len(),
            sorted_stems@.len() == k,
            forall|j: int| 0 <= j < k ==> #[trigger] sorted_stems@[j]@ == stems@[order@[j] as int]@,
        decreases order@.len() - k,
    {
        assert(order@[k as int] < paths@.len());
        sorted_stems.push(copy_name(&stems[order[k]]));
        k = k + 1;
    }
    let ghost fv = ordered_stem_paths(stems@, order@);
    assert(stem_paths(sorted_stems@) =~= fv);
    let planned = plan_proto_files(&sorted_stems);
    proof {
        lemma_listing_plan_copies(fv);
    }
    let mut ops: Vec<ModuleOp> = Vec::new();
    let mut i: usize = 0;
    while i < planned.len()
        invariant
            i <= planned@.len(),
            ops_view(planned@) == spec_plan(fv),
            fv.len() == order@.len(),
            forall|j: int|
                0 <= j < spec_plan(fv).len() ==> (#[trigger] spec_plan(fv)[j] matches ModuleOpView::Copy(c) ==> 0
                    <= c < fv.len()),
            ops_view(ops@) == ops_view(planned@).take(i as int).map_values(
                |op: ModuleOpView| copy_in_listing(op, order@),
            ),
        decreases planned@.len() - i,
    {
        let ghost before = ops@;
        let op = match &planned[i] {
            ModuleOp::Open(name) => ModuleOp::Open(copy_name(name)),
            ModuleOp::Close => ModuleOp::Close,
            ModuleOp::Copy(c) => {
                assert(ops_view(planned@)[i as int] == ModuleOpView::Copy(*c as int));
                ModuleOp::Copy(order[*c])
            },
        };
        ops.push(op);
        assert(ops_view(ops@) =~= ops_view(before).push(copy_in_listing(ops_view(planned@)[i as int], order@)));
        assert(ops_view(planned@).take(i + 1) =~= ops_view(planned@).take(i as int).push(ops_view(planned@)[i as int]));
        i = i + 1;
    }
    assert(ops_view(planned@).take(i as int) =~= ops_view(planned@));
    assert(ops_view(ops@) =~= listing_plan(stems@, order@));
    proof {
        lemma_nesting_without_copies(spec_plan(fv), order@);
        if one_directory(pv, stems@) {
            assert forall|i: int, j: int| 0 <= i < j < sorted_stems@.len() implies bytes_le(
                #[trigger] stem_file_name(sorted_stems@[i]@),
                #[trigger] stem_file_name(sorted_stems@[j]@),
            ) by {
                let a = order@[i] as int;
                let b = order@[j] as int;
                assert(pv[a].len() >= 1 && pv[b].len() >= 1);
                let dir = pv[a].drop_last();
                assert(pv[a].drop_last() == pv[b].drop_last());
                assert(pv[a] =~= dir.push(pv[a].last()));
                assert(pv[b] =~= dir.push(pv[b].last()));
                lemma_paths_order_same_dir(dir, pv[a].last(), pv[b].last());
                assert(crate::path_order::paths_order(pv[order@[i] as int], pv[order@[j] as int]) <= 0);
                assert(pv[a].last() == stem_file_name(stems@[a]@));
                assert(pv[b].last() == stem_file_name(stems@[b]@));
                lemma_order_gives_le(stem_file_name(sorted_stems@[i]@), stem_file_name(sorted_stems@[j]@));
            }
        }
    }
    ops
}

} // verus!
