//! Where things go on screen: the order of the ports of a node (inputs on the left,
//! outputs on the right, each column sorted by name) and the slots of the sub-nodes
//! of an application group.
use vstd::prelude::*;
use crate::graph_items::Port;
use crate::ids::PortDirection;
use crate::text::{chars_lt, chars_of, lemma_seq_lt_strict_total, seq_lt};

verus! {

/// The order of sort keys made of two names: by the first name, then by the second.
pub open spec fn key_lt(a: (Seq<char>, Seq<char>), b: (Seq<char>, Seq<char>)) -> bool {
    seq_lt(a.0, b.0) || (a.0 == b.0 && seq_lt(a.1, b.1))
}

/// `key_lt` is a strict total order.
pub proof fn lemma_key_order(a: (Seq<char>, Seq<char>), b: (Seq<char>, Seq<char>), c: (Seq<char>, Seq<char>))
    ensures
        !key_lt(a, a),
        key_lt(a, b) && key_lt(b, c) ==> key_lt(a, c),
        !(key_lt(a, b) && key_lt(b, a)),
        !key_lt(a, b) && !key_lt(b, a) ==> a == b,
{
    lemma_seq_lt_strict_total(a.0, b.0, c.0);
    lemma_seq_lt_strict_total(a.1, b.1, c.1);
    lemma_seq_lt_strict_total(b.0, a.0, c.0);
    lemma_seq_lt_strict_total(b.1, a.1, c.1);
    lemma_seq_lt_strict_total(a.0, c.0, b.0);
    lemma_seq_lt_strict_total(a.1, c.1, b.1);
}

/// `perm` lists each index of `keys` once, in an order where no key comes after a
/// key that is strictly greater.
pub open spec fn sorts(keys: Seq<(Seq<char>, Seq<char>)>, perm: Seq<usize>) -> bool {
    &&& perm.len() == keys.len()
    &&& perm.no_duplicates()
    &&& forall|i: int| 0 <= i < perm.len() ==> #[trigger] perm[i] < keys.len()
    &&& forall|u: usize| u < keys.len() ==> #[trigger] perm.contains(u)
    &&& forall|i: int, j: int| 0 <= i < j < perm.len() ==> !key_lt(keys[perm[j] as int], keys[perm[i] as int])
}

/// The characters of a pair of names.
pub open spec fn key_view(k: (Vec<char>, Vec<char>)) -> (Seq<char>, Seq<char>) {
    (k.0@, k.1@)
}

fn key_lt_exec(a: &(Vec<char>, Vec<char>), b: &(Vec<char>, Vec<char>)) -> (r: bool)
    ensures
        r == key_lt(key_view(*a), key_view(*b)),
{
    if chars_lt(&a.0, &b.0) {
        return true;
    }
    if chars_lt(&b.0, &a.0) {
        return false;
    }
    proof {
        lemma_seq_lt_strict_total(a.0@, b.0@, a.0@);
    }
    chars_lt(&a.1, &b.1)
}

/// The order in which to show the entries with the keys `keys`: sorted by the first
/// name, then by the second.
pub fn sort_by_names(keys: &Vec<(Vec<char>, Vec<char>)>) -> (perm: Vec<usize>)
    ensures
        sorts(keys@.map_values(|k: (Vec<char>, Vec<char>)| key_view(k)), perm@),
{
    let ghost kv = keys@.map_values(|k: (Vec<char>, Vec<char>)| key_view(k));
    let mut perm: Vec<usize> = Vec::new();
    let mut i: usize = 0;
    while i < keys.len()
        invariant
            kv == keys@.map_values(|k: (Vec<char>, Vec<char>)| key_view(k)),
            i <= keys@.len(),
            perm@.len() == i,
            perm@.no_duplicates(),
            forall|x: int| 0 <= x < perm@.len() ==> #[trigger] perm@[x] < i,
            forall|u: usize| u < i ==> #[trigger] perm@.contains(u),
            forall|x: int, y: int| 0 <= x < y < perm@.len() ==> !key_lt(kv[perm@[y] as int], kv[perm@[x] as int]),
        decreases keys.len() - i,
    {
        let mut p: usize = 0;
        while p < perm.len() && !key_lt_exec(&keys[i], &keys[perm[p]])
            invariant
                kv == keys@.map_values(|k: (Vec<char>, Vec<char>)| key_view(k)),
                i < keys@.len(),
                p <= perm@.len(),
                forall|x: int| 0 <= x < perm@.len() ==> #[trigger] perm@[x] < i,
                forall|x: int| 0 <= x < p ==> !key_lt(kv[i as int], #[trigger] kv[perm@[x] as int]),
            decreases perm.len() - p,
        {
            p = p + 1;
        }
        let ghost before = perm@;
        perm.insert(p, i);
        proof {
            assert(perm@ =~= before.take(p as int).push(i).add(before.skip(p as int)));
            assert forall|x: int| 0 <= x < perm@.len() implies #[trigger] perm@[x] < i + 1 by {
                if x < p {
                    assert(perm@[x] == before[x]);
                } else if x > p {
                    assert(perm@[x] == before[x - 1]);
                }
            }
            assert forall|x: int, y: int| 0 <= x < y < perm@.len() implies !key_lt(kv[perm@[y] as int], kv[perm@[x] as int]) by {
                if x < p && y < p {
                    assert(perm@[x] == before[x] && perm@[y] == before[y]);
                } else if x < p && y == p {
                    assert(perm@[x] == before[x]);
                    lemma_key_order(kv[i as int], kv[before[x] as int], kv[i as int]);
                } else if x < p && y > p {
                    assert(perm@[x] == before[x] && perm@[y] == before[y - 1]);
                } else if x == p {
                    assert(perm@[y] == before[y - 1]);
                    assert(key_lt(kv[i as int], kv[before[p as int] as int]));
                    if y - 1 > p {
                        lemma_key_order(kv[before[y - 1] as int], kv[i as int], kv[before[p as int] as int]);
                        lemma_key_order(kv[i as int], kv[before[p as int] as int], kv[before[y - 1] as int]);
                        lemma_key_order(kv[before[y - 1] as int], kv[before[p as int] as int], kv[i as int]);
                    } else {
                        lemma_key_order(kv[before[y - 1] as int], kv[i as int], kv[i as int]);
                    }
                } else {
                    assert(perm@[x] == before[x - 1] && perm@[y] == before[y - 1]);
                }
            }
            assert forall|u: usize| u < i + 1 implies #[trigger] perm@.contains(u) by {
                if u == i {
                    assert(perm@[p as int] == i);
                } else {
                    assert(before.contains(u));
                    let x = choose|x: int| 0 <= x < before.len() && before[x] == u;
                    if x < p {
                        assert(perm@[x] == u);
                    } else {
                        assert(perm@[x + 1] == u);
                    }
                }
            }
            assert forall|x: int, y: int| 0 <= x < y < perm@.len() implies perm@[x] != perm@[y] by {
                if x < p && y < p {
                    assert(perm@[x] == before[x] && perm@[y] == before[y]);
                } else if x < p && y == p {
                    assert(perm@[x] == before[x]);
                } else if x < p && y > p {
                    assert(perm@[x] == before[x] && perm@[y] == before[y - 1]);
                } else if x == p {
                    assert(perm@[y] == before[y - 1]);
                } else {
                    assert(perm@[x] == before[x - 1] && perm@[y] == before[y - 1]);
                }
            }
        }
        i = i + 1;
    }
    perm
}

/// The rows of a port grid: the input ports `ins` in the left column and the output
/// ports `outs` in the right one, row by row, as many rows as the longer column.
pub open spec fn grid_rows(ins: Seq<usize>, outs: Seq<usize>, r: Seq<(Option<usize>, Option<usize>)>) -> bool {
    &&& r.len() == (if ins.len() >= outs.len() { ins.len() } else { outs.len() })
    &&& forall|i: int| 0 <= i < r.len() ==> #[trigger] r[i] == (
        if i < ins.len() { Some(ins[i]) } else { None },
        if i < outs.len() { Some(outs[i]) } else { None },
    )
}

/// `col` lists once each port of `hs` that goes in the direction `dir`, sorted by name.
pub open spec fn column(ports: Seq<Port>, hs: Seq<usize>, dir: PortDirection, col: Seq<usize>) -> bool {
    &&& col.no_duplicates()
    &&& col.to_set() == hs.to_set().filter(|h: usize| ports[h as int].direction == dir)
    &&& forall|i: int, j: int| 0 <= i < j < col.len() ==> !seq_lt(ports[col[j] as int].name@, ports[col[i] as int].name@)
}

fn column_of(ports: &Vec<Port>, hs: &Vec<usize>, dir: PortDirection) -> (col: Vec<usize>)
    requires
        hs@.no_duplicates(),
        forall|i: int| 0 <= i < hs@.len() ==> #[trigger] hs@[i] < ports@.len(),
    ensures
        column(ports@, hs@, dir, col@),
        forall|i: int| 0 <= i < col@.len() ==> #[trigger] col@[i] < ports@.len(),
{
    let mut picked: Vec<usize> = Vec::new();
    let mut keys: Vec<(Vec<char>, Vec<char>)> = Vec::new();
    let mut i: usize = 0;
    while i < hs.len()
        invariant
            hs@.no_duplicates(),
            forall|k: int| 0 <= k < hs@.len() ==> #[trigger] hs@[k] < ports@.len(),
            i <= hs@.len(),
            picked@.no_duplicates(),
            picked@.len() == keys@.len(),
            forall|k: int| 0 <= k < picked@.len() ==> #[trigger] picked@[k] < ports@.len(),
            forall|k: int| 0 <= k < picked@.len() ==> key_view(#[trigger] keys@[k]) == (ports@[picked@[k] as int].name@, Seq::<char>::empty()),
            forall|h: usize| #[trigger] picked@.contains(h) == (hs@.take(i as int).contains(h) && ports@[h as int].direction == dir),
        decreases hs.len() - i,
    {
        let h = hs[i];
        let ghost picked_before = picked@;
        assert(!hs@.take(i as int).contains(h)) by {
            if hs@.take(i as int).contains(h) {
                let j = choose|j: int| 0 <= j < i && hs@.take(i as int)[j] == h;
                assert(hs@[j] == hs@[i as int]);
            }
        }
        assert(hs@.take(i as int + 1)[i as int] == h);
        assert(!picked@.contains(h));
        if ports[h].direction == dir {
            picked.push(h);
            assert(picked@ == picked_before.push(h));
            keys.push((chars_of(ports[h].name.as_str()), Vec::new()));
            assert(keys@.last().1@ =~= Seq::<char>::empty());
        }
        proof {
            assert forall|x: usize| x != h implies #[trigger] hs@.take(i as int + 1).contains(x) == hs@.take(i as int).contains(x) by {
                if hs@.take(i as int + 1).contains(x) {
                    let w = choose|w: int| 0 <= w < i + 1 && #[trigger] hs@.take(i as int + 1)[w] == x;
                    if w < i {
                        assert(hs@.take(i as int)[w] == x);
                    }
                }
                if hs@.take(i as int).contains(x) {
                    let w = choose|w: int| 0 <= w < i && #[trigger] hs@.take(i as int)[w] == x;
                    assert(hs@.take(i as int + 1)[w] == x);
                }
            }
            assert forall|x: usize| #[trigger] picked@.contains(x) == (hs@.take(i as int + 1).contains(x) && ports@[x as int].direction == dir) by {
                if x != h {
                    assert(picked_before.contains(x) == (hs@.take(i as int).contains(x) && ports@[x as int].direction == dir));
                    if picked@.contains(x) {
                        let w = choose|w: int| 0 <= w < picked@.len() && picked@[w] == x;
                        assert(picked_before[w] == x);
                    }
                    if picked_before.contains(x) {
                        let w = choose|w: int| 0 <= w < picked_before.len() && picked_before[w] == x;
                        assert(picked@[w] == x);
                    }
                } else if ports@[h as int].direction == dir {
                    assert(picked@[picked@.len() - 1] == h);
                } else {
                    assert(!picked_before.contains(h));
                }
            }
        }
        i = i + 1;
    }
    assert(hs@.take(hs@.len() as int) =~= hs@);
    let perm = sort_by_names(&keys);
    let ghost kv = keys@.map_values(|k: (Vec<char>, Vec<char>)| key_view(k));
    let mut col: Vec<usize> = Vec::new();
    let mut k: usize = 0;
    while k < perm.len()
        invariant
            sorts(kv, perm@),
            kv == keys@.map_values(|k: (Vec<char>, Vec<char>)| key_view(k)),
            picked@.len() == keys@.len(),
            forall|x: int| 0 <= x < picked@.len() ==> #[trigger] picked@[x] < ports@.len(),
            k <= perm@.len(),
            col@.len() == k,
            forall|x: int| 0 <= x < k ==> #[trigger] col@[x] == picked@[perm@[x] as int],
        decreases perm.len() - k,
    {
        col.push(picked[perm[k]]);
        k = k + 1;
    }
    proof {
        assert forall|x: int| 0 <= x < col@.len() implies #[trigger] col@[x] < ports@.len() by {
            assert(perm@[x] < kv.len());
        }
        assert forall|x: int, y: int| 0 <= x < y < col@.len() implies col@[x] != col@[y] by {
            assert(perm@[x] < kv.len() && perm@[y] < kv.len());
            assert(perm@[x] != perm@[y]);
        }
        assert forall|x: int, y: int| 0 <= x < y < col@.len() implies !seq_lt(ports@[col@[y] as int].name@, ports@[col@[x] as int].name@) by {
            assert(perm@[x] < kv.len() && perm@[y] < kv.len());
            assert(kv[perm@[y] as int] == key_view(keys@[perm@[y] as int]));
            assert(kv[perm@[x] as int] == key_view(keys@[perm@[x] as int]));
            assert(!key_lt(kv[perm@[y] as int], kv[perm@[x] as int]));
        }
        assert forall|h: usize| #[trigger] col@.to_set().contains(h) == hs@.to_set().filter(|q: usize| ports@[q as int].direction == dir).contains(h) by {
            if col@.to_set().contains(h) {
                let x = choose|x: int| 0 <= x < col@.len() && col@[x] == h;
                assert(perm@[x] < kv.len());
                assert(picked@.contains(h));
            }
            if hs@.to_set().filter(|q: usize| ports@[q as int].direction == dir).contains(h) {
                assert(picked@.contains(h));
                let w = choose|w: int| 0 <= w < picked@.len() && picked@[w] == h;
                assert(perm@.len() == kv.len());
                assert(perm@.contains(w as usize));
                let x = choose|x: int| 0 <= x < perm@.len() && perm@[x] == w as usize;
                assert(col@[x] == h);
            }
        }
        assert(col@.to_set() =~= hs@.to_set().filter(|q: usize| ports@[q as int].direction == dir));
    }
    col
}

/// The rows of the port grid of the ports `hs`: inputs on the left and outputs on the
/// right, each column sorted by name.
pub fn port_rows(ports: &Vec<Port>, hs: &Vec<usize>) -> (r: Vec<(Option<usize>, Option<usize>)>)
    requires
        hs@.no_duplicates(),
        forall|i: int| 0 <= i < hs@.len() ==> #[trigger] hs@[i] < ports@.len(),
    ensures
        exists|ins: Seq<usize>, outs: Seq<usize>| {
            &&& #[trigger] column(ports@, hs@, PortDirection::Input, ins)
            &&& #[trigger] column(ports@, hs@, PortDirection::Output, outs)
            &&& grid_rows(ins, outs, r@)
        },
{
    let ins = column_of(ports, hs, PortDirection::Input);
    let outs = column_of(ports, hs, PortDirection::Output);
    let n = if ins.len() >= outs.len() { ins.len() } else { outs.len() };
    let mut r: Vec<(Option<usize>, Option<usize>)> = Vec::new();
    let mut i: usize = 0;
    while i < n
        invariant
            n == (if ins@.len() >= outs@.len() { ins@.len() } else { outs@.len() }),
            i <= n,
            r@.len() == i,
            forall|k: int| 0 <= k < i ==> #[trigger] r@[k] == (
                if k < ins@.len() { Some(ins@[k]) } else { None },
                if k < outs@.len() { Some(outs@[k]) } else { None },
            ),
        decreases n - i,
    {
        let a = if i < ins.len() { Some(ins[i]) } else { None };
        let b = if i < outs.len() { Some(outs[i]) } else { None };
        r.push((a, b));
        i = i + 1;
    }
    proof {
        assert(grid_rows(ins@, outs@, r@));
    }
    r
}

/// The ids `ids`, each once, in increasing order.
pub fn sort_ids(ids: &Vec<u32>) -> (r: Vec<u32>)
    requires
        ids@.no_duplicates(),
    ensures
        forall|i: int, j: int| 0 <= i < j < r@.len() ==> r@[i] < r@[j],
        r@.to_set() == ids@.to_set(),
{
    let mut r: Vec<u32> = Vec::new();
    let mut i: usize = 0;
    while i < ids.len()
        invariant
            i <= ids@.len(),
            ids@.no_duplicates(),
            forall|a: int, b: int| 0 <= a < b < r@.len() ==> r@[a] < r@[b],
            r@.to_set() == ids@.subrange(0, i as int).to_set(),
        decreases ids.len() - i,
    {
        let k = ids[i];
        assert(!r@.contains(k)) by {
            if r@.contains(k) {
                assert(ids@.subrange(0, i as int).to_set().contains(k));
                let j = choose|j: int| 0 <= j < i && ids@.subrange(0, i as int)[j] == k;
                assert(ids@[j] == ids@[i as int]);
            }
        }
        let mut p: usize = 0;
        while p < r.len() && r[p] < k
            invariant
                p <= r@.len(),
                forall|a: int| 0 <= a < p ==> r@[a] < k,
            decreases r.len() - p,
        {
            p = p + 1;
        }
        let ghost prev = r@;
        r.insert(p, k);
        proof {
            assert(r@ == prev.insert(p as int, k));
            assert forall|a: int| p <= a < prev.len() implies prev[a] > k by {
                if a == p {
                    assert(prev[a] != k);
                } else {
                    assert(prev[p as int] < prev[a]);
                    assert(prev[p as int] != k);
                }
            }
            assert forall|a: int, b: int| 0 <= a < b < r@.len() implies r@[a] < r@[b] by {
                if b < p {
                } else if b == p {
                } else if a < p {
                    assert(r@[b] == prev[b - 1]);
                } else if a == p {
                    assert(r@[b] == prev[b - 1]);
                } else {
                    assert(r@[a] == prev[a - 1] && r@[b] == prev[b - 1]);
                }
            }
            assert(ids@.subrange(0, i + 1) == ids@.subrange(0, i as int).push(k));
            assert(r@.to_set() =~= prev.to_set().insert(k)) by {
                assert forall|x: u32| r@.to_set().contains(x) implies prev.to_set().insert(k).contains(x) by {
                    let a = choose|a: int| 0 <= a < r@.len() && r@[a] == x;
                    if a < p {
                        assert(prev[a] == x);
                    } else if a > p {
                        assert(prev[a - 1] == x);
                    }
                }
                assert forall|x: u32| prev.to_set().insert(k).contains(x) implies r@.to_set().contains(x) by {
                    if x == k {
                        assert(r@[p as int] == k);
                    } else {
                        let a = choose|a: int| 0 <= a < prev.len() && prev[a] == x;
                        if a < p {
                            assert(r@[a] == x);
                        } else {
                            assert(r@[a + 1] == x);
                        }
                    }
                }
            }
            let s0 = ids@.subrange(0, i as int);
            let s1 = ids@.subrange(0, i + 1);
            assert(s1 == s0.push(k));
            assert forall|x: u32| s1.to_set().contains(x) implies s0.to_set().insert(k).contains(x) by {
                let a = choose|a: int| 0 <= a < s1.len() && s1[a] == x;
                if a < i {
                    assert(s0[a] == x);
                }
            }
            assert forall|x: u32| s0.to_set().insert(k).contains(x) implies s1.to_set().contains(x) by {
                if x == k {
                    assert(s1[i as int] == k);
                } else {
                    let a = choose|a: int| 0 <= a < s0.len() && s0[a] == x;
                    assert(s1[a] == x);
                }
            }
            assert(s1.to_set() =~= s0.to_set().insert(k));
        }
        i = i + 1;
    }
    assert(ids@.subrange(0, ids@.len() as int) =~= ids@);
    r
}

/// The place of the sub-node that comes `k`-th in an application group: three to a
/// row, as (column, row).
pub open spec fn sub_node_slot_spec(k: nat) -> (nat, nat) {
    (k % 3, k / 3)
}

/// The column and row, and the position in pixels, of the `k`-th sub-node of an
/// application group: three to a row, 160 pixels apart across and 120 down, starting
/// 10 pixels from the corner.
pub fn sub_node_slot(k: u32) -> (r: (u32, u32, u64, u64))
    ensures
        (r.0 as nat, r.1 as nat) == sub_node_slot_spec(k as nat),
        r.2 == 10 + 160 * (r.0 as int),
        r.3 == 10 + 120 * (r.1 as int),
{
    let col = k % 3;
    let row = k / 3;
    let x = 10 + 160 * (col as u64);
    let y = 10 + 120 * (row as u64);
    (col, row, x, y)
}

} // verus!
