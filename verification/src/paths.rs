//! Input paths: the order in which files are processed, and the names of files.
//!
//! A path is compared by its components, as `std::path::Path` compares: component by
//! component, each by its kind (prefix, root, `.`, `..`, name) and then by its bytes.
use vstd::prelude::*;


verus! {

broadcast use vstd::string::group_string_axioms;

/// One component of a path: its kind (0 prefix, 1 root, 2 `.`, 3 `..`, 4 name) and bytes.
#[derive(Debug, Clone)]
pub struct PathComponent {
    pub kind: u8,
    pub bytes: Vec<u8>,
}

/// `a` comes before `b` in lexicographic byte order.
pub open spec fn bytes_lt(a: Seq<u8>, b: Seq<u8>) -> bool
    decreases a.len(),
{
    if a.len() == 0 {
        b.len() > 0
    } else if b.len() == 0 {
        false
    } else if a[0] != b[0] {
        a[0] < b[0]
    } else {
        bytes_lt(a.drop_first(), b.drop_first())
    }
}

pub struct ComponentView {
    pub kind: u8,
    pub bytes: Seq<u8>,
}

impl View for PathComponent {
    type V = ComponentView;

    open spec fn view(&self) -> ComponentView {
        ComponentView { kind: self.kind, bytes: self.bytes@ }
    }
}

pub open spec fn component_lt(a: ComponentView, b: ComponentView) -> bool {
    a.kind < b.kind || (a.kind == b.kind && bytes_lt(a.bytes, b.bytes))
}

/// `a` comes before `b`, component by component.
pub open spec fn path_lt(a: Seq<ComponentView>, b: Seq<ComponentView>) -> bool
    decreases a.len(),
{
    if a.len() == 0 {
        b.len() > 0
    } else if b.len() == 0 {
        false
    } else if a[0] != b[0] {
        component_lt(a[0], b[0])
    } else {
        path_lt(a.drop_first(), b.drop_first())
    }
}

proof fn lemma_bytes_irrefl(a: Seq<u8>)
    ensures
        !bytes_lt(a, a),
    decreases a.len(),
{
    if a.len() > 0 {
        lemma_bytes_irrefl(a.drop_first());
    }
}

proof fn lemma_path_irrefl(a: Seq<ComponentView>)
    ensures
        !path_lt(a, a),
    decreases a.len(),
{
    if a.len() > 0 {
        lemma_path_irrefl(a.drop_first());
    }
}

proof fn lemma_bytes_order(a: Seq<u8>, b: Seq<u8>, c: Seq<u8>)
    ensures
        !(bytes_lt(a, b) && bytes_lt(b, a)),
        bytes_lt(a, b) || bytes_lt(b, a) || a == b,
        !bytes_lt(a, a),
        bytes_lt(a, b) && bytes_lt(b, c) ==> bytes_lt(a, c),
    decreases a.len(),
{
    lemma_bytes_irrefl(a);
    if a.len() > 0 && b.len() > 0 {
        if c.len() > 0 {
            lemma_bytes_order(a.drop_first(), b.drop_first(), c.drop_first());
        } else {
            lemma_bytes_order(a.drop_first(), b.drop_first(), c);
        }
        if a[0] == b[0] && a.drop_first() == b.drop_first() {
            assert(a =~= seq![a[0]] + a.drop_first());
            assert(b =~= seq![b[0]] + b.drop_first());
        }
    } else if a.len() == 0 && b.len() == 0 {
        assert(a =~= b);
    }
}

proof fn lemma_path_order(a: Seq<ComponentView>, b: Seq<ComponentView>, c: Seq<ComponentView>)
    ensures
        !(path_lt(a, b) && path_lt(b, a)),
        path_lt(a, b) || path_lt(b, a) || a == b,
        !path_lt(a, a),
        path_lt(a, b) && path_lt(b, c) ==> path_lt(a, c),
    decreases a.len(),
{
    lemma_path_irrefl(a);
    if a.len() > 0 && b.len() > 0 {
        lemma_bytes_order(a[0].bytes, b[0].bytes, a[0].bytes);
        if c.len() > 0 {
            lemma_bytes_order(a[0].bytes, b[0].bytes, c[0].bytes);
            lemma_bytes_order(b[0].bytes, c[0].bytes, a[0].bytes);
            lemma_bytes_order(c[0].bytes, a[0].bytes, b[0].bytes);
            lemma_path_order(a.drop_first(), b.drop_first(), c.drop_first());
        } else {
            lemma_path_order(a.drop_first(), b.drop_first(), c);
        }
        if a[0] == b[0] && a.drop_first() == b.drop_first() {
            assert(a =~= seq![a[0]] + a.drop_first());
            assert(b =~= seq![b[0]] + b.drop_first());
        }
        if a[0] != b[0] && !component_lt(a[0], b[0]) && !component_lt(b[0], a[0]) {
            assert(a[0].bytes == b[0].bytes);
        }
    } else if a.len() == 0 && b.len() == 0 {
        assert(a =~= b);
    }
}

fn bytes_less(a: &Vec<u8>, b: &Vec<u8>) -> (r: bool)
    ensures
        r == bytes_lt(a@, b@),
{
    let mut i: usize = 0;
    assert(a@.subrange(0, a.len() as int) =~= a@);
    assert(b@.subrange(0, b.len() as int) =~= b@);
    while i < a.len() && i < b.len() && a[i] == b[i]
        invariant
            i <= a.len(),
            i <= b.len(),
            bytes_lt(a@, b@) == bytes_lt(a@.subrange(i as int, a.len() as int), b@.subrange(
                i as int,
                b.len() as int,
            )),
        decreases a.len() - i,
    {
        let ghost sa = a@.subrange(i as int, a.len() as int);
        let ghost sb = b@.subrange(i as int, b.len() as int);
        assert(sa.drop_first() =~= a@.subrange(i + 1, a.len() as int));
        assert(sb.drop_first() =~= b@.subrange(i + 1, b.len() as int));
        i = i + 1;
    }
    let ghost sa = a@.subrange(i as int, a.len() as int);
    let ghost sb = b@.subrange(i as int, b.len() as int);
    if i == a.len() {
        i < b.len()
    } else if i == b.len() {
        false
    } else {
        assert(sa[0] == a@[i as int] && sb[0] == b@[i as int]);
        a[i] < b[i]
    }
}

fn component_eq(a: &PathComponent, b: &PathComponent) -> (r: bool)
    ensures
        r == (a@ == b@),
{
    if a.kind != b.kind || a.bytes.len() != b.bytes.len() {
        return false;
    }
    let mut i: usize = 0;
    while i < a.bytes.len()
        invariant
            a.bytes.len() == b.bytes.len(),
            i <= a.bytes.len(),
            forall|k: int| 0 <= k < i ==> a.bytes@[k] == b.bytes@[k],
        decreases a.bytes.len() - i,
    {
        if a.bytes[i] != b.bytes[i] {
            return false;
        }
        i = i + 1;
    }
    assert(a.bytes@ =~= b.bytes@);
    true
}

pub open spec fn key_view(k: Seq<PathComponent>) -> Seq<ComponentView> {
    k.map_values(|c: PathComponent| c@)
}

fn path_less(a: &Vec<PathComponent>, b: &Vec<PathComponent>) -> (r: bool)
    ensures
        r == path_lt(key_view(a@), key_view(b@)),
{
    let ghost av = key_view(a@);
    let ghost bv = key_view(b@);
    let mut i: usize = 0;
    assert(av.subrange(0, a.len() as int) =~= av);
    assert(bv.subrange(0, b.len() as int) =~= bv);
    while i < a.len() && i < b.len() && component_eq(&a[i], &b[i])
        invariant
            i <= a.len(),
            i <= b.len(),
            av == key_view(a@),
            bv == key_view(b@),
            path_lt(av, bv) == path_lt(av.subrange(i as int, a.len() as int), bv.subrange(
                i as int,
                b.len() as int,
            )),
        decreases a.len() - i,
    {
        let ghost sa = av.subrange(i as int, a.len() as int);
        let ghost sb = bv.subrange(i as int, b.len() as int);
        assert(sa[0] == a@[i as int]@ && sb[0] == b@[i as int]@);
        assert(sa.drop_first() =~= av.subrange(i + 1, a.len() as int));
        assert(sb.drop_first() =~= bv.subrange(i + 1, b.len() as int));
        i = i + 1;
    }
    let ghost sa = av.subrange(i as int, a.len() as int);
    let ghost sb = bv.subrange(i as int, b.len() as int);
    if i == a.len() {
        i < b.len()
    } else if i == b.len() {
        false
    } else {
        assert(sa[0] == a@[i as int]@ && sb[0] == b@[i as int]@);
        let ca = &a[i];
        let cb = &b[i];
        ca.kind < cb.kind || (ca.kind == cb.kind && bytes_less(&ca.bytes, &cb.bytes))
    }
}

/// The key `ks[m]` is the key of one of the indices `r`.
pub open spec fn key_listed(r: Seq<usize>, ks: Seq<Seq<ComponentView>>, m: int) -> bool {
    exists|i: int| 0 <= i < r.len() && ks[#[trigger] r[i] as int] == ks[m]
}

/// The indices `r` put the keys `ks` in order, once each: their keys strictly increase, every
/// key of `ks` is the key of one of them, and each is the first index with its key.
pub open spec fn is_sorted_unique_order(r: Seq<usize>, ks: Seq<Seq<ComponentView>>) -> bool {
    &&& forall|i: int| 0 <= i < r.len() ==> #[trigger] r[i] < ks.len()
    &&& forall|i: int, j: int| 0 <= i < j < r.len() ==> path_lt(ks[r[i] as int], ks[r[j] as int])
    &&& forall|m: int| 0 <= m < ks.len() ==> #[trigger] key_listed(r, ks, m)
    &&& forall|i: int, m: int|
        #![trigger ks[m], r[i]]
        0 <= i < r.len() && 0 <= m < r[i] ==> ks[m] != ks[r[i] as int]
}

pub open spec fn keys_view(keys: Seq<Vec<PathComponent>>) -> Seq<Seq<ComponentView>> {
    keys.map_values(|k: Vec<PathComponent>| key_view(k@))
}

/// The order in which to process the paths whose component lists are `keys`, as indices into
/// `keys`: sorted as paths sort, with repeated paths once (the first time each occurs).
pub fn sorted_unique_order(keys: &[Vec<PathComponent>]) -> (r: Vec<usize>)
    ensures
        is_sorted_unique_order(r@, keys_view(keys@)),
{
    let ghost ks = keys_view(keys@);
    let mut order: Vec<usize> = Vec::new();
    let mut n: usize = 0;
    while n < keys.len()
        invariant
            n <= keys.len(),
            ks == keys_view(keys@),
            is_sorted_unique_order(order@, ks.take(n as int)),
        decreases keys.len() - n,
    {
        let ghost pre = ks.take(n as int);
        let ghost cur = ks.take(n + 1);
        assert(cur[n as int] == ks[n as int]);
        assert forall|m: int| 0 <= m < n implies cur[m] == pre[m] && pre[m] == ks[m] by {}
        let mut i: usize = 0;
        while i < order.len() && path_less(&keys[order[i]], &keys[n])
            invariant
                i <= order.len(),
                n < keys.len(),
                ks == keys_view(keys@),
                pre == ks.take(n as int),
                forall|j: int| 0 <= j < order.len() ==> #[trigger] order@[j] < n,
                forall|j: int| 0 <= j < i ==> path_lt(ks[#[trigger] order@[j] as int], ks[n as int]),
            decreases order.len() - i,
        {
            assert(ks[order@[i as int] as int] == key_view(keys@[order@[i as int] as int]@));
            i = i + 1;
        }
        let ghost ov = order@;
        let same = i < order.len() && !path_less(&keys[n], &keys[order[i]]);
        if i < order.len() {
            assert(ks[order@[i as int] as int] == key_view(keys@[order@[i as int] as int]@));
            proof {
                lemma_path_order(ks[n as int], ks[order@[i as int] as int], ks[n as int]);
            }
        }
        if same {
            // the path occurred before: keep its first occurrence
            proof {
                assert(ks[n as int] == ks[ov[i as int] as int]);
                assert forall|m: int| 0 <= m < cur.len() implies #[trigger] key_listed(ov, cur, m) by {
                    if m < n {
                        assert(key_listed(ov, pre, m));
                        let j = choose|j: int| 0 <= j < ov.len() && pre[#[trigger] ov[j] as int] == pre[m];
                        assert(cur[ov[j] as int] == pre[ov[j] as int]);
                    } else {
                        assert(cur[ov[i as int] as int] == cur[m]);
                    }
                }
                assert forall|a: int, b: int| 0 <= a < b < ov.len() implies path_lt(
                    cur[ov[a] as int],
                    cur[ov[b] as int],
                ) by {
                    assert(cur[ov[a] as int] == pre[ov[a] as int]);
                    assert(cur[ov[b] as int] == pre[ov[b] as int]);
                }
                assert forall|a: int, m: int| #![trigger cur[m], ov[a]] 0 <= a < ov.len() && 0 <= m < ov[a] implies cur[m]
                    != cur[ov[a] as int] by {
                    assert(cur[ov[a] as int] == pre[ov[a] as int]);
                    assert(cur[m] == pre[m]);
                }
            }
        } else {
            proof {
                if i < order.len() {
                    assert(path_lt(ks[n as int], ks[ov[i as int] as int]));
                }
                // no earlier path equals this one
                assert forall|j: int| 0 <= j < ov.len() implies ks[ov[j] as int] != ks[n as int]
                    by {
                    if j < i {
                        lemma_path_order(ks[ov[j] as int], ks[n as int], ks[n as int]);
                    } else {
                        assert(path_lt(pre[ov[i as int] as int], pre[ov[j] as int]) || j == i);
                        assert(pre[ov[i as int] as int] == ks[ov[i as int] as int]);
                        assert(pre[ov[j] as int] == ks[ov[j] as int]);
                        lemma_path_order(ks[n as int], ks[ov[i as int] as int], ks[ov[j] as int]);
                        lemma_path_order(ks[ov[j] as int], ks[n as int], ks[n as int]);
                    }
                }
            }
            order.insert(i, n);
            proof {
                let nv = order@;
                assert forall|j: int| 0 <= j < i implies nv[j] == ov[j] by {}
                assert forall|j: int| i < j < nv.len() implies nv[j] == ov[j - 1] by {}
                assert(nv[i as int] == n);
                assert forall|j: int| 0 <= j < nv.len() implies #[trigger] nv[j] < cur.len() by {}
                assert forall|a: int, b: int| 0 <= a < b < nv.len() implies path_lt(
                    cur[nv[a] as int],
                    cur[nv[b] as int],
                ) by {
                    let x = if a < i { ov[a] } else if a == i { n } else { ov[a - 1] };
                    let y = if b < i { ov[b] } else if b == i { n } else { ov[b - 1] };
                    assert(nv[a] == x && nv[b] == y);
                    assert(cur[x as int] == ks[x as int] && cur[y as int] == ks[y as int]);
                    if a < i && b < i {
                        assert(pre[ov[a] as int] == ks[ov[a] as int]);
                        assert(pre[ov[b] as int] == ks[ov[b] as int]);
                    } else if a < i && b == i {
                    } else if a < i && b > i {
                        assert(pre[ov[a] as int] == ks[ov[a] as int]);
                        assert(pre[ov[b - 1] as int] == ks[ov[b - 1] as int]);
                        if a < b - 1 {
                            assert(path_lt(pre[ov[a] as int], pre[ov[b - 1] as int]));
                        }
                        assert(path_lt(ks[ov[a] as int], ks[n as int]));
                        assert(path_lt(ks[n as int], ks[ov[i as int] as int]));
                        if i < b - 1 {
                            assert(path_lt(pre[ov[i as int] as int], pre[ov[b - 1] as int]));
                            assert(pre[ov[i as int] as int] == ks[ov[i as int] as int]);
                            lemma_path_order(ks[n as int], ks[ov[i as int] as int], ks[ov[b - 1] as int]);
                        }
                        lemma_path_order(ks[ov[a] as int], ks[n as int], ks[ov[b - 1] as int]);
                    } else if a == i {
                        assert(path_lt(ks[n as int], ks[ov[i as int] as int]));
                        if i < b - 1 {
                            assert(path_lt(pre[ov[i as int] as int], pre[ov[b - 1] as int]));
                            assert(pre[ov[i as int] as int] == ks[ov[i as int] as int]);
                            assert(pre[ov[b - 1] as int] == ks[ov[b - 1] as int]);
                            lemma_path_order(ks[n as int], ks[ov[i as int] as int], ks[ov[b - 1] as int]);
                        }
                    } else {
                        assert(path_lt(pre[ov[a - 1] as int], pre[ov[b - 1] as int]));
                        assert(pre[ov[a - 1] as int] == ks[ov[a - 1] as int]);
                        assert(pre[ov[b - 1] as int] == ks[ov[b - 1] as int]);
                    }
                }
                assert forall|m: int| 0 <= m < cur.len() implies #[trigger] key_listed(nv, cur, m) by {
                    if m < n {
                        assert(key_listed(ov, pre, m));
                        let j = choose|j: int| 0 <= j < ov.len() && pre[#[trigger] ov[j] as int] == pre[m];
                        let jj = if j < i { j } else { j + 1 };
                        assert(nv[jj] == ov[j]);
                        assert(cur[ov[j] as int] == pre[ov[j] as int]);
                    } else {
                        assert(nv[i as int] == n);
                    }
                }
                assert forall|a: int, m: int| #![trigger cur[m], nv[a]] 0 <= a < nv.len() && 0 <= m < nv[a] implies cur[m]
                    != cur[nv[a] as int] by {
                    if a == i {
                        if cur[m] == cur[n as int] {
                            assert(key_listed(ov, pre, m));
                            let j = choose|j: int| 0 <= j < ov.len() && pre[#[trigger] ov[j] as int] == pre[m];
                            assert(pre[ov[j] as int] == ks[ov[j] as int]);
                        }
                    } else {
                        let aa = if a < i { a } else { a - 1 };
                        assert(nv[a] == ov[aa]);
                        assert(cur[ov[aa] as int] == pre[ov[aa] as int]);
                        assert(cur[m] == pre[m]);
                    }
                }
            }
        }
        n = n + 1;
    }
    assert(ks.take(keys.len() as int) =~= ks);
    order
}

} // verus!
