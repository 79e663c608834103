//! The stored form of a commitment tree and of a witness, as their frontier
//! parts: optional 32-byte nodes, each written as a presence byte (0 or 1)
//! followed by the node, and counts written as one byte.
use vstd::prelude::*;

use crate::sapling::{
    cmu_canonical, cmu_is_canonical, complete_at, depth_from, frontier_wf, lemma_depth_step, next_depth, node_canonical, tree_frontier, tree_from_parts,
    tree_into_parts, witness_frontier, witness_from_pieces, witness_pieces, witness_wf, Tree,
    Witness,
};

verus! {

/// The frontier of a commitment tree: the left and right leaves of the last
/// pair, and one optional node per level above them.
pub struct TreeParts {
    pub left: Option<Vec<u8>>,
    pub right: Option<Vec<u8>>,
    pub parents: Vec<Option<Vec<u8>>>,
}

/// A witness: the tree as it was when the witness was taken, the roots of the
/// subtrees completed since, and the subtree being filled.
pub struct WitnessParts {
    pub tree: TreeParts,
    pub filled: Vec<Vec<u8>>,
    pub cursor: Option<TreeParts>,
}

/// The largest count that the one-byte form holds.
pub const MAX_COUNT: usize = 252;

pub open spec fn opt_node_ok(o: Option<Vec<u8>>) -> bool {
    match o {
        None => true,
        Some(n) => n@.len() == 32,
    }
}

pub open spec fn tree_parts_ok(p: TreeParts) -> bool {
    &&& opt_node_ok(p.left)
    &&& opt_node_ok(p.right)
    &&& p.parents@.len() <= MAX_COUNT
    &&& forall|i: int| 0 <= i < p.parents@.len() ==> opt_node_ok(#[trigger] p.parents@[i])
}

pub open spec fn witness_parts_ok(w: WitnessParts) -> bool {
    &&& tree_parts_ok(w.tree)
    &&& w.filled@.len() <= MAX_COUNT
    &&& forall|i: int| 0 <= i < w.filled@.len() ==> (#[trigger] w.filled@[i])@.len() == 32
    &&& match w.cursor {
        None => true,
        Some(c) => tree_parts_ok(c),
    }
}

pub open spec fn opt_node_bytes(o: Option<Vec<u8>>) -> Seq<u8> {
    match o {
        None => seq![0u8],
        Some(n) => seq![1u8] + n@,
    }
}

pub open spec fn opt_nodes_bytes(s: Seq<Option<Vec<u8>>>) -> Seq<u8>
    decreases s.len(),
{
    if s.len() == 0 {
        seq![]
    } else {
        opt_nodes_bytes(s.drop_last()) + opt_node_bytes(s.last())
    }
}

pub open spec fn nodes_bytes(s: Seq<Vec<u8>>) -> Seq<u8>
    decreases s.len(),
{
    if s.len() == 0 {
        seq![]
    } else {
        nodes_bytes(s.drop_last()) + s.last()@
    }
}

/// The stored form of a tree.
pub open spec fn tree_bytes(p: TreeParts) -> Seq<u8> {
    opt_node_bytes(p.left) + opt_node_bytes(p.right) + seq![p.parents@.len() as u8]
        + opt_nodes_bytes(p.parents@)
}

/// The stored form of a witness.
pub open spec fn witness_bytes(w: WitnessParts) -> Seq<u8> {
    tree_bytes(w.tree) + seq![w.filled@.len() as u8] + nodes_bytes(w.filled@) + match w.cursor {
        None => seq![0u8],
        Some(c) => seq![1u8] + tree_bytes(c),
    }
}

/// An optional node by value.
pub open spec fn node_view(o: Option<Vec<u8>>) -> Option<Seq<u8>> {
    match o {
        None => None,
        Some(n) => Some(n@),
    }
}

/// A tree's frontier by value: `(left, right, parents)`.
pub open spec fn tree_view(p: TreeParts) -> (Option<Seq<u8>>, Option<Seq<u8>>, Seq<Option<Seq<u8>>>) {
    (node_view(p.left), node_view(p.right), p.parents@.map_values(|o: Option<Vec<u8>>| node_view(o)))
}

/// The optional node stored at `pos`, and the position after it.
pub open spec fn parse_opt_node(data: Seq<u8>, pos: int) -> Option<(Option<Seq<u8>>, int)> {
    if pos < 0 || pos >= data.len() {
        None
    } else if data[pos] == 0 {
        Some((None, pos + 1))
    } else if data[pos] == 1 && pos + 33 <= data.len() {
        Some((Some(data.subrange(pos + 1, pos + 33)), pos + 33))
    } else {
        None
    }
}

/// `n` optional nodes stored from `pos`, and the position after them.
pub open spec fn parse_opt_nodes(data: Seq<u8>, pos: int, n: nat) -> Option<(Seq<Option<Seq<u8>>>, int)>
    decreases n,
{
    if n == 0 {
        Some((seq![], pos))
    } else {
        match parse_opt_nodes(data, pos, (n - 1) as nat) {
            None => None,
            Some((s, p)) => match parse_opt_node(data, p) {
                None => None,
                Some((o, e)) => Some((s.push(o), e)),
            },
        }
    }
}

/// The tree stored at `pos`, by value, and the position after it.
pub open spec fn parse_tree(data: Seq<u8>, pos: int) -> Option<
    ((Option<Seq<u8>>, Option<Seq<u8>>, Seq<Option<Seq<u8>>>), int),
> {
    match parse_opt_node(data, pos) {
        None => None,
        Some((l, mid1)) => match parse_opt_node(data, mid1) {
            None => None,
            Some((r, mid2)) => if mid2 < 0 || mid2 >= data.len() || data[mid2] > MAX_COUNT {
                None
            } else {
                match parse_opt_nodes(data, mid2 + 1, data[mid2] as nat) {
                    None => None,
                    Some((ps, e)) => Some(((l, r, ps), e)),
                }
            },
        },
    }
}

proof fn lemma_parse_opt_node(data: Seq<u8>, pos: int, o: Option<Vec<u8>>)
    requires
        opt_node_ok(o),
        0 <= pos,
        pos + opt_node_bytes(o).len() <= data.len(),
        data.subrange(pos, pos + opt_node_bytes(o).len()) == opt_node_bytes(o),
    ensures
        parse_opt_node(data, pos) == Some((node_view(o), pos + opt_node_bytes(o).len())),
{
    let b = opt_node_bytes(o);
    assert(data[pos] == data.subrange(pos, pos + b.len())[0]);
    if let Some(n) = o {
        assert(data.subrange(pos + 1, pos + 33) =~= data.subrange(pos, pos + 33).subrange(1, 33));
        assert(b.subrange(1, 33) =~= n@);
    }
}

proof fn lemma_parse_opt_nodes(data: Seq<u8>, pos: int, s: Seq<Option<Vec<u8>>>)
    requires
        forall|i: int| 0 <= i < s.len() ==> opt_node_ok(#[trigger] s[i]),
        0 <= pos,
        pos + opt_nodes_bytes(s).len() <= data.len(),
        data.subrange(pos, pos + opt_nodes_bytes(s).len()) == opt_nodes_bytes(s),
    ensures
        parse_opt_nodes(data, pos, s.len()) == Some(
            (s.map_values(|o: Option<Vec<u8>>| node_view(o)), pos + opt_nodes_bytes(s).len()),
        ),
    decreases s.len(),
{
    if s.len() > 0 {
        let d = s.drop_last();
        let a = opt_nodes_bytes(d);
        let b = opt_node_bytes(s.last());
        let al: int = a.len() as int;
        let bl: int = b.len() as int;
        let whole = data.subrange(pos, pos + al + bl);
        assert(whole =~= a + b);
        assert(forall|i: int| 0 <= i < d.len() ==> d[i] == s[i]);
        assert(data.subrange(pos, pos + al) =~= whole.subrange(0, al));
        assert((a + b).subrange(0, al) =~= a);
        lemma_parse_opt_nodes(data, pos, d);
        assert(data.subrange(pos + al, pos + al + bl) =~= whole.subrange(al, al + bl));
        assert((a + b).subrange(al, al + bl) =~= b);
        assert(opt_node_ok(s[s.len() - 1]));
        lemma_parse_opt_node(data, pos + al, s.last());
        assert(s.map_values(|o: Option<Vec<u8>>| node_view(o)) =~= d.map_values(
            |o: Option<Vec<u8>>| node_view(o),
        ).push(node_view(s.last())));
    } else {
        assert(s.map_values(|o: Option<Vec<u8>>| node_view(o)) =~= Seq::<Option<Seq<u8>>>::empty());
    }
}

proof fn lemma_parse_tree(data: Seq<u8>, pos: int, p: TreeParts)
    requires
        tree_parts_ok(p),
        0 <= pos,
        pos + tree_bytes(p).len() <= data.len(),
        data.subrange(pos, pos + tree_bytes(p).len()) == tree_bytes(p),
    ensures
        parse_tree(data, pos) == Some((tree_view(p), pos + tree_bytes(p).len())),
{
    let t = tree_bytes(p);
    let l = opt_node_bytes(p.left);
    let r = opt_node_bytes(p.right);
    let c = seq![p.parents@.len() as u8];
    let ps = opt_nodes_bytes(p.parents@);
    let ll: int = l.len() as int;
    let rl: int = r.len() as int;
    let tl: int = t.len() as int;
    let whole = data.subrange(pos, pos + tl);
    assert(t =~= l + r + c + ps);
    assert(data.subrange(pos, pos + ll) =~= whole.subrange(0, ll));
    assert(t.subrange(0, ll) =~= l);
    lemma_parse_opt_node(data, pos, p.left);
    let mid1 = pos + ll;
    assert(data.subrange(mid1, mid1 + rl) =~= whole.subrange(ll, ll + rl));
    assert(t.subrange(ll, ll + rl) =~= r);
    lemma_parse_opt_node(data, mid1, p.right);
    let mid2 = mid1 + rl;
    assert(data[mid2] == whole[ll + rl]);
    assert(t[ll + rl] == p.parents@.len() as u8);
    let mid3 = mid2 + 1;
    assert(data.subrange(mid3, pos + tl) =~= whole.subrange(ll + rl + 1, tl));
    assert(t.subrange(ll + rl + 1, tl) =~= ps);
    lemma_parse_opt_nodes(data, mid3, p.parents@);
}

/// A witness by value: `(tree, filled roots, cursor)`.
pub open spec fn witness_view(w: WitnessParts) -> (
    (Option<Seq<u8>>, Option<Seq<u8>>, Seq<Option<Seq<u8>>>),
    Seq<Seq<u8>>,
    Option<(Option<Seq<u8>>, Option<Seq<u8>>, Seq<Option<Seq<u8>>>)>,
) {
    (
        tree_view(w.tree),
        w.filled@.map_values(|n: Vec<u8>| n@),
        match w.cursor {
            None => None,
            Some(c) => Some(tree_view(c)),
        },
    )
}

/// `n` nodes of 32 bytes stored from `pos`, and the position after them.
pub open spec fn parse_nodes(data: Seq<u8>, pos: int, n: nat) -> Option<(Seq<Seq<u8>>, int)>
    decreases n,
{
    if n == 0 {
        Some((seq![], pos))
    } else {
        match parse_nodes(data, pos, (n - 1) as nat) {
            None => None,
            Some((s, p)) => if 0 <= p && p + 32 <= data.len() {
                Some((s.push(data.subrange(p, p + 32)), p + 32))
            } else {
                None
            },
        }
    }
}

/// The witness stored in `data`, by value.
pub open spec fn parse_witness(data: Seq<u8>) -> Option<
    (
        (Option<Seq<u8>>, Option<Seq<u8>>, Seq<Option<Seq<u8>>>),
        Seq<Seq<u8>>,
        Option<(Option<Seq<u8>>, Option<Seq<u8>>, Seq<Option<Seq<u8>>>)>,
    ),
> {
    match parse_tree(data, 0) {
        None => None,
        Some((t, mid1)) => if mid1 < 0 || mid1 >= data.len() || data[mid1] > MAX_COUNT {
            None
        } else {
            match parse_nodes(data, mid1 + 1, data[mid1] as nat) {
                None => None,
                Some((fs, q)) => if q < 0 || q >= data.len() {
                    None
                } else if data[q] == 0 {
                    if q + 1 == data.len() {
                        Some((t, fs, None))
                    } else {
                        None
                    }
                } else if data[q] == 1 {
                    match parse_tree(data, q + 1) {
                        Some((c, e)) => if e == data.len() {
                            Some((t, fs, Some(c)))
                        } else {
                            None
                        },
                        None => None,
                    }
                } else {
                    None
                },
            }
        },
    }
}

proof fn lemma_parse_nodes(data: Seq<u8>, pos: int, s: Seq<Vec<u8>>)
    requires
        forall|i: int| 0 <= i < s.len() ==> (#[trigger] s[i])@.len() == 32,
        0 <= pos,
        pos + nodes_bytes(s).len() <= data.len(),
        data.subrange(pos, pos + nodes_bytes(s).len()) == nodes_bytes(s),
    ensures
        parse_nodes(data, pos, s.len()) == Some(
            (s.map_values(|n: Vec<u8>| n@), pos + nodes_bytes(s).len()),
        ),
    decreases s.len(),
{
    if s.len() > 0 {
        let d = s.drop_last();
        let a = nodes_bytes(d);
        let b = s.last()@;
        let al: int = a.len() as int;
        let whole = data.subrange(pos, pos + al + 32);
        assert(s[s.len() - 1]@.len() == 32);
        assert(whole =~= a + b);
        assert(forall|i: int| 0 <= i < d.len() ==> d[i] == s[i]);
        assert(data.subrange(pos, pos + al) =~= whole.subrange(0, al));
        assert((a + b).subrange(0, al) =~= a);
        lemma_parse_nodes(data, pos, d);
        assert(data.subrange(pos + al, pos + al + 32) =~= whole.subrange(al, al + 32));
        assert((a + b).subrange(al, al + 32) =~= b);
        assert(s.map_values(|n: Vec<u8>| n@) =~= d.map_values(|n: Vec<u8>| n@).push(b));
    } else {
        assert(s.map_values(|n: Vec<u8>| n@) =~= Seq::<Seq<u8>>::empty());
    }
}

proof fn lemma_parse_witness(data: Seq<u8>, w: WitnessParts)
    requires
        witness_parts_ok(w),
        witness_bytes(w) == data,
    ensures
        parse_witness(data) == Some(witness_view(w)),
{
    let t = tree_bytes(w.tree);
    let c = seq![w.filled@.len() as u8];
    let f = nodes_bytes(w.filled@);
    let k = match w.cursor {
        None => seq![0u8],
        Some(cur) => seq![1u8] + tree_bytes(cur),
    };
    let tl: int = t.len() as int;
    let fl: int = f.len() as int;
    assert(data =~= t + c + f + k);
    assert(data.subrange(0, tl) =~= t);
    lemma_parse_tree(data, 0, w.tree);
    assert(data[tl] == w.filled@.len() as u8);
    assert(data.subrange(tl + 1, tl + 1 + fl) =~= f);
    lemma_parse_nodes(data, tl + 1, w.filled@);
    let q = tl + 1 + fl;
    assert(data[q] == k[0]);
    if let Some(cur) = w.cursor {
        assert(data.subrange(q + 1, data.len() as int) =~= tree_bytes(cur));
        lemma_parse_tree(data, q + 1, cur);
    }
}

proof fn lemma_parse_nodes_none(data: Seq<u8>, pos: int, n: nat, m: nat)
    requires
        n <= m,
        parse_nodes(data, pos, n).is_none(),
    ensures
        parse_nodes(data, pos, m).is_none(),
    decreases m,
{
    if n < m {
        lemma_parse_nodes_none(data, pos, n, (m - 1) as nat);
    }
}

fn push_all(out: &mut Vec<u8>, b: &Vec<u8>)
    ensures
        final(out)@ == old(out)@ + b@,
{
    let ghost start = out@;
    let mut i: usize = 0;
    while i < b.len()
        invariant
            0 <= i <= b@.len(),
            out@ == start + b@.take(i as int),
        decreases b@.len() - i,
    {
        out.push(b[i]);
        i = i + 1;
        assert(out@ =~= start + b@.take(i as int));
    }
    assert(b@.take(b@.len() as int) =~= b@);
}

fn write_opt_node(out: &mut Vec<u8>, o: &Option<Vec<u8>>)
    ensures
        final(out)@ == old(out)@ + opt_node_bytes(*o),
{
    match o {
        None => {
            out.push(0);
        },
        Some(n) => {
            out.push(1);
            push_all(out, n);
        },
    }
    assert(final(out)@ =~= old(out)@ + opt_node_bytes(*o));
}

fn write_tree_into(out: &mut Vec<u8>, p: &TreeParts)
    requires
        tree_parts_ok(*p),
    ensures
        final(out)@ == old(out)@ + tree_bytes(*p),
{
    let ghost start = out@;
    write_opt_node(out, &p.left);
    write_opt_node(out, &p.right);
    out.push(p.parents.len() as u8);
    let ghost head = out@;
    let mut i: usize = 0;
    while i < p.parents.len()
        invariant
            0 <= i <= p.parents@.len(),
            out@ == head + opt_nodes_bytes(p.parents@.take(i as int)),
        decreases p.parents@.len() - i,
    {
        assert(p.parents@.take(i + 1).drop_last() =~= p.parents@.take(i as int));
        write_opt_node(out, &p.parents[i]);
        i = i + 1;
        assert(out@ =~= head + opt_nodes_bytes(p.parents@.take(i as int)));
    }
    assert(p.parents@.take(p.parents@.len() as int) =~= p.parents@);
    assert(out@ =~= start + tree_bytes(*p));
}

/// The stored form of a tree.
pub fn write_tree(p: &TreeParts) -> (r: Vec<u8>)
    requires
        tree_parts_ok(*p),
    ensures
        r@ == tree_bytes(*p),
{
    let mut out: Vec<u8> = Vec::new();
    write_tree_into(&mut out, p);
    assert(out@ =~= tree_bytes(*p));
    out
}

/// The stored form of a witness.
pub fn write_witness(w: &WitnessParts) -> (r: Vec<u8>)
    requires
        witness_parts_ok(*w),
    ensures
        r@ == witness_bytes(*w),
{
    let mut out: Vec<u8> = Vec::new();
    write_tree_into(&mut out, &w.tree);
    out.push(w.filled.len() as u8);
    let ghost head = out@;
    let mut i: usize = 0;
    while i < w.filled.len()
        invariant
            0 <= i <= w.filled@.len(),
            out@ == head + nodes_bytes(w.filled@.take(i as int)),
        decreases w.filled@.len() - i,
    {
        assert(w.filled@.take(i + 1).drop_last() =~= w.filled@.take(i as int));
        push_all(&mut out, &w.filled[i]);
        i = i + 1;
        assert(out@ =~= head + nodes_bytes(w.filled@.take(i as int)));
    }
    assert(w.filled@.take(w.filled@.len() as int) =~= w.filled@);
    match &w.cursor {
        None => {
            out.push(0);
        },
        Some(c) => {
            out.push(1);
            write_tree_into(&mut out, c);
        },
    }
    assert(out@ =~= witness_bytes(*w));
    out
}

fn copy_range(data: &Vec<u8>, start: usize, end: usize) -> (r: Vec<u8>)
    requires
        start <= end <= data@.len(),
    ensures
        r@ == data@.subrange(start as int, end as int),
{
    let mut r: Vec<u8> = Vec::new();
    let mut i: usize = start;
    while i < end
        invariant
            start <= i <= end <= data@.len(),
            r@ == data@.subrange(start as int, i as int),
        decreases end - i,
    {
        r.push(data[i]);
        i = i + 1;
        assert(r@ =~= data@.subrange(start as int, i as int));
    }
    r
}

fn read_opt_node(data: &Vec<u8>, pos: usize) -> (r: Option<(Option<Vec<u8>>, usize)>)
    ensures
        r.is_some() == parse_opt_node(data@, pos as int).is_some(),
        r matches Some((o, e)) ==> parse_opt_node(data@, pos as int) == Some((node_view(o), e as int)),
        r matches Some((o, e)) ==> pos < e <= data@.len() && opt_node_ok(o) && data@.subrange(
            pos as int,
            e as int,
        ) == opt_node_bytes(o),
{
    if pos >= data.len() {
        return None;
    }
    if data[pos] == 0 {
        assert(data@.subrange(pos as int, pos + 1) =~= seq![0u8]);
        Some((None, pos + 1))
    } else if data[pos] == 1 && data.len() - pos > 32 {
        let n = copy_range(data, pos + 1, pos + 33);
        assert(data@.subrange(pos as int, pos + 33) =~= seq![1u8] + n@);
        Some((Some(n), pos + 33))
    } else {
        None
    }
}

proof fn lemma_parse_opt_nodes_none(data: Seq<u8>, pos: int, n: nat, m: nat)
    requires
        n <= m,
        parse_opt_nodes(data, pos, n).is_none(),
    ensures
        parse_opt_nodes(data, pos, m).is_none(),
    decreases m,
{
    if n < m {
        lemma_parse_opt_nodes_none(data, pos, n, (m - 1) as nat);
    }
}

fn read_tree_at(data: &Vec<u8>, pos: usize) -> (r: Option<(TreeParts, usize)>)
    ensures
        r.is_some() == parse_tree(data@, pos as int).is_some(),
        r matches Some((p, e)) ==> parse_tree(data@, pos as int) == Some((tree_view(p), e as int)),
        r matches Some((p, e)) ==> pos < e <= data@.len() && tree_parts_ok(p) && data@.subrange(
            pos as int,
            e as int,
        ) == tree_bytes(p),
{
    let (left, mid1) = match read_opt_node(data, pos) {
        None => return None,
        Some(x) => x,
    };
    let (right, mid2) = match read_opt_node(data, mid1) {
        None => return None,
        Some(x) => x,
    };
    if mid2 >= data.len() || data[mid2] as usize > MAX_COUNT {
        return None;
    }
    let count = data[mid2] as usize;
    let mid3 = mid2 + 1;
    let mut parents: Vec<Option<Vec<u8>>> = Vec::new();
    let mut q: usize = mid3;
    while parents.len() < count
        invariant
            mid3 <= q <= data@.len(),
            parents@.len() <= count <= MAX_COUNT,
            forall|i: int| 0 <= i < parents@.len() ==> opt_node_ok(#[trigger] parents@[i]),
            data@.subrange(mid3 as int, q as int) == opt_nodes_bytes(parents@),
            parse_opt_node(data@, pos as int) == Some((node_view(left), mid1 as int)),
            parse_opt_node(data@, mid1 as int) == Some((node_view(right), mid2 as int)),
            mid2 < data@.len(),
            count == data@[mid2 as int],
            mid3 == mid2 + 1,
            parse_opt_nodes(data@, mid3 as int, parents@.len()) == Some(
                (parents@.map_values(|o: Option<Vec<u8>>| node_view(o)), q as int),
            ),
        decreases count - parents@.len(),
    {
        let (o, e) = match read_opt_node(data, q) {
            None => {
                proof {
                    lemma_parse_opt_nodes_none(data@, mid3 as int, parents@.len() + 1, count as nat);
                }
                return None;
            },
            Some(x) => x,
        };
        let ghost prev = parents@;
        parents.push(o);
        assert(parents@.map_values(|o: Option<Vec<u8>>| node_view(o)) =~= prev.map_values(
            |o: Option<Vec<u8>>| node_view(o),
        ).push(node_view(o)));
        assert(parents@.drop_last() =~= prev);
        assert(data@.subrange(mid3 as int, e as int) =~= data@.subrange(mid3 as int, q as int)
            + data@.subrange(q as int, e as int));
        q = e;
    }
    let p = TreeParts { left, right, parents };
    assert(data@.subrange(mid2 as int, mid3 as int) =~= seq![count as u8]);
    assert(data@.subrange(pos as int, q as int) =~= data@.subrange(pos as int, mid1 as int)
        + data@.subrange(mid1 as int, mid2 as int) + data@.subrange(mid2 as int, mid3 as int)
        + data@.subrange(mid3 as int, q as int));
    Some((p, q))
}

/// Reads a stored tree. What it returns is written back as exactly `data`,
/// and the stored form of any tree reads back as that tree.
pub fn read_tree(data: &Vec<u8>) -> (r: Option<TreeParts>)
    ensures
        r matches Some(p) ==> parse_tree(data@, 0) == Some((tree_view(p), data@.len() as int)),
        (parse_tree(data@, 0) matches Some((v, e)) && e == data@.len()) ==> r.is_some(),
        r matches Some(p) ==> tree_parts_ok(p) && tree_bytes(p) == data@,
        forall|p: TreeParts|
            tree_parts_ok(p) && #[trigger] tree_bytes(p) == data@ ==> (r matches Some(q) && tree_view(
                q,
            ) == tree_view(p)),
{
    let r = read_tree_at(data, 0);
    assert forall|p: TreeParts| tree_parts_ok(p) && #[trigger] tree_bytes(p) == data@ implies
        parse_tree(data@, 0) == Some((tree_view(p), data@.len() as int)) by {
        assert(data@.subrange(0, data@.len() as int) =~= data@);
        lemma_parse_tree(data@, 0, p);
    }
    match r {
        Some((p, e)) => {
            if e == data.len() {
                assert(data@.subrange(0, e as int) =~= data@);
                Some(p)
            } else {
                None
            }
        },
        None => None,
    }
}

fn read_nodes(data: &Vec<u8>, pos: usize, count: usize) -> (r: Option<(Vec<Vec<u8>>, usize)>)
    requires
        pos <= data@.len(),
        count <= MAX_COUNT,
    ensures
        r.is_some() == parse_nodes(data@, pos as int, count as nat).is_some(),
        r matches Some((fs, q)) ==> parse_nodes(data@, pos as int, count as nat) == Some(
            (fs@.map_values(|n: Vec<u8>| n@), q as int),
        ) && pos <= q <= data@.len() && fs@.len() == count && data@.subrange(pos as int, q as int)
            == nodes_bytes(fs@) && forall|i: int| 0 <= i < fs@.len() ==> (#[trigger] fs@[i])@.len()
            == 32,
{
    let mut filled: Vec<Vec<u8>> = Vec::new();
    let mut q: usize = pos;
    while filled.len() < count
        invariant
            pos <= q <= data@.len(),
            filled@.len() <= count <= MAX_COUNT,
            forall|i: int| 0 <= i < filled@.len() ==> (#[trigger] filled@[i])@.len() == 32,
            data@.subrange(pos as int, q as int) == nodes_bytes(filled@),
            parse_nodes(data@, pos as int, filled@.len()) == Some(
                (filled@.map_values(|n: Vec<u8>| n@), q as int),
            ),
        decreases count - filled@.len(),
    {
        if data.len() - q < 32 {
            proof {
                lemma_parse_nodes_none(data@, pos as int, filled@.len() + 1, count as nat);
            }
            return None;
        }
        let n = copy_range(data, q, q + 32);
        let ghost prev = filled@;
        filled.push(n);
        assert(filled@.drop_last() =~= prev);
        assert(data@.subrange(pos as int, q + 32) =~= data@.subrange(pos as int, q as int) + n@);
        assert(filled@.map_values(|n: Vec<u8>| n@) =~= prev.map_values(|n: Vec<u8>| n@).push(n@));
        q = q + 32;
    }
    Some((filled, q))
}

/// Reads a stored witness. What it returns is written back as exactly `data`,
/// and the stored form of any witness reads back as that witness.
#[verifier::rlimit(60)]
pub fn read_witness(data: &Vec<u8>) -> (r: Option<WitnessParts>)
    ensures
        r matches Some(w) ==> witness_parts_ok(w) && witness_bytes(w) == data@,
        r matches Some(w) ==> parse_witness(data@) == Some(witness_view(w)),
        r.is_none() ==> parse_witness(data@).is_none(),
        forall|w: WitnessParts|
            witness_parts_ok(w) && #[trigger] witness_bytes(w) == data@ ==> (r matches Some(v)
                && witness_view(v) == witness_view(w)),
{
    assert forall|w: WitnessParts| witness_parts_ok(w) && #[trigger] witness_bytes(w) == data@ implies
        parse_witness(data@) == Some(witness_view(w)) by {
        lemma_parse_witness(data@, w);
    }
    let (tree, mid1) = match read_tree_at(data, 0) {
        None => return None,
        Some(x) => x,
    };
    if mid1 >= data.len() || data[mid1] as usize > MAX_COUNT {
        return None;
    }
    let count = data[mid1] as usize;
    let mid2 = mid1 + 1;
    let (filled, q) = match read_nodes(data, mid2, count) {
        None => return None,
        Some(x) => x,
    };
    if q >= data.len() {
        return None;
    }
    let tag = data[q];
    let (cursor, end) = if tag == 0 {
        assert(data@.subrange(q as int, q + 1) =~= seq![0u8]);
        (None, q + 1)
    } else if tag == 1 {
        match read_tree_at(data, q + 1) {
            None => return None,
            Some((c, e)) => {
                assert(data@.subrange(q as int, e as int) =~= seq![1u8] + data@.subrange(
                    q + 1,
                    e as int,
                ));
                (Some(c), e)
            },
        }
    } else {
        return None;
    };
    if end != data.len() {
        return None;
    }
    let w = WitnessParts { tree, filled, cursor };
    assert(data@.subrange(mid1 as int, mid2 as int) =~= seq![count as u8]);
    assert(data@ =~= data@.subrange(0, mid1 as int) + data@.subrange(mid1 as int, mid2 as int)
        + data@.subrange(mid2 as int, q as int) + data@.subrange(q as int, end as int));
    Some(w)
}

fn node_is_canonical(o: &Option<Vec<u8>>) -> (r: bool)
    requires
        opt_node_ok(*o),
    ensures
        r == node_canonical(node_view(*o)),
{
    match o {
        None => true,
        Some(n) => cmu_is_canonical(n),
    }
}

/// Whether stored tree parts are a frontier that appends produce.
fn tree_parts_wf(p: &TreeParts) -> (r: bool)
    requires
        tree_parts_ok(*p),
    ensures
        r == frontier_wf(tree_view(*p)),
{
    let v = Ghost(tree_view(*p));
    if p.parents.len() >= 32 || !node_is_canonical(&p.left) || !node_is_canonical(&p.right) {
        return false;
    }
    let mut all_none = true;
    let mut i: usize = 0;
    while i < p.parents.len()
        invariant
            tree_parts_ok(*p),
            v@ == tree_view(*p),
            0 <= i <= p.parents@.len(),
            forall|k: int| 0 <= k < i ==> node_canonical(#[trigger] v@.2[k]),
            all_none == forall|k: int| 0 <= k < i ==> (#[trigger] v@.2[k]).is_none(),
        decreases p.parents@.len() - i,
    {
        assert(opt_node_ok(p.parents@[i as int]));
        if !node_is_canonical(&p.parents[i]) {
            assert(!node_canonical(v@.2[i as int]));
            return false;
        }
        if p.parents[i].is_some() {
            assert(v@.2[i as int].is_some());
            all_none = false;
        }
        i = i + 1;
    }
    p.left.is_some() || (p.right.is_none() && all_none)
}

/// The depth of the subtree the witness fills next.
fn next_depth_of(w: &WitnessParts) -> (r: u64)
    requires
        witness_parts_ok(*w),
        w.tree.parents@.len() < 32,
        w.filled@.len() <= 32,
    ensures
        r == next_depth(witness_view(*w)),
{
    let ghost v = witness_view(*w);
    let filled = w.filled.len() as u64;
    let mut skip: u64 = 0;
    if w.tree.right.is_none() {
        if filled > 0 {
            skip = filled - 1;
        } else {
            return 0;
        }
    } else {
        skip = filled;
    }
    let mut d: u64 = 1;
    let mut i: usize = 0;
    while i < w.tree.parents.len()
        invariant
            v == witness_view(*w),
            v.0.2.len() == w.tree.parents@.len(),
            w.tree.parents@.len() < 32,
            0 <= i <= w.tree.parents@.len(),
            d == i + 1,
            skip <= 32,
            next_depth(v) == depth_from(v.0.2, i as nat, skip as nat, d as nat),
        decreases w.tree.parents@.len() - i,
    {
        let ghost i0 = i as nat;
        let ghost s0 = skip as nat;
        let ghost d0 = d as nat;
        assert(i0 < v.0.2.len());
        proof {
            lemma_depth_step(v.0.2, i0, s0, d0);
        }
        if w.tree.parents[i].is_none() {
            assert(v.0.2[i as int].is_none());
            if skip > 0 {
                skip = skip - 1;
            } else {
                assert(depth_from(v.0.2, i0, s0, d0) == d0);
                return d;
            }
        } else {
            assert(v.0.2[i as int].is_some());
        }
        d = d + 1;
        i = i + 1;
        assert(depth_from(v.0.2, i0, s0, d0) == depth_from(v.0.2, i as nat, skip as nat, d as nat));
    }
    assert(depth_from(v.0.2, i as nat, skip as nat, d as nat) == (d + skip) as nat);
    d + skip
}

/// Whether a frontier is a full tree of depth `d`.
fn is_complete_at(c: &TreeParts, d: u64) -> (r: bool)
    requires
        tree_parts_ok(*c),
        1 <= d <= 32,
    ensures
        r == complete_at(tree_view(*c), d as nat),
{
    let ghost v = tree_view(*c);
    if c.left.is_none() || c.right.is_none() {
        return false;
    }
    let mut i: usize = 0;
    while (i as u64) < d - 1
        invariant
            v == tree_view(*c),
            v.2.len() == c.parents@.len(),
            1 <= d <= 32,
            0 <= i <= d - 1,
            forall|k: int| 0 <= k < i ==> k < v.2.len() && (#[trigger] v.2[k]).is_some(),
        decreases d - 1 - i,
    {
        if i >= c.parents.len() || c.parents[i].is_none() {
            assert(!(i < v.2.len() && v.2[i as int].is_some()));
            return false;
        }
        i = i + 1;
    }
    true
}

/// Whether stored witness parts are a witness that appends produce.
fn witness_parts_wf(w: &WitnessParts) -> (r: bool)
    requires
        witness_parts_ok(*w),
    ensures
        r == witness_wf(witness_view(*w)),
{
    let ghost v = witness_view(*w);
    if !tree_parts_wf(&w.tree) || w.tree.left.is_none() || w.filled.len() > 32 {
        return false;
    }
    let mut i: usize = 0;
    while i < w.filled.len()
        invariant
            witness_parts_ok(*w),
            v == witness_view(*w),
            0 <= i <= w.filled@.len(),
            forall|k: int| 0 <= k < i ==> cmu_canonical(#[trigger] v.1[k]),
        decreases w.filled@.len() - i,
    {
        assert(w.filled@[i as int]@.len() == 32);
        if !cmu_is_canonical(&w.filled[i]) {
            assert(!cmu_canonical(v.1[i as int]));
            return false;
        }
        i = i + 1;
    }
    match &w.cursor {
        None => true,
        Some(c) => {
            let d = next_depth_of(w);
            if d == 0 || d >= 32 {
                return false;
            }
            tree_parts_wf(c) && c.left.is_some() && (c.parents.len() as u64) < d && !is_complete_at(c, d)
        },
    }
}

/// Whether a tree is one that appends produce.
pub fn tree_is_wf(t: &Tree) -> (r: bool)
    ensures
        r == frontier_wf(tree_frontier(*t)),
{
    let p = tree_into_parts(t);
    tree_parts_wf(&p)
}

fn witness_into_parts(w: &Witness) -> (r: WitnessParts)
    requires
        witness_frontier(*w).1.len() <= MAX_COUNT,
        forall|i: int| 0 <= i < witness_frontier(*w).1.len() ==> (#[trigger] witness_frontier(*w).1[i]).len() == 32,
    ensures
        witness_parts_ok(r),
        witness_view(r) == witness_frontier(*w),
{
    let (tree, filled, cursor) = witness_pieces(w);
    let cursor = match cursor {
        Some(c) => Some(tree_into_parts(&c)),
        None => None,
    };
    let p = WitnessParts { tree: tree_into_parts(&tree), filled, cursor };
    assert(witness_view(p) == witness_frontier(*w));
    assert forall|i: int| 0 <= i < p.filled@.len() implies (#[trigger] p.filled@[i])@.len() == 32 by {
        assert(witness_view(p).1[i].len() == 32);
    }
    p
}

/// Whether a witness is one that `from_tree` and appends produce.
pub fn witness_is_wf(w: &Witness) -> (r: bool)
    ensures
        r == witness_wf(witness_frontier(*w)),
{
    let (tree, filled, cursor) = witness_pieces(w);
    if filled.len() > 32 {
        return false;
    }
    let mut i: usize = 0;
    while i < filled.len()
        invariant
            0 <= i <= filled@.len(),
            witness_frontier(*w).1 == filled@.map_values(|n: Vec<u8>| n@),
            forall|k: int| 0 <= k < i ==> (#[trigger] filled@[k])@.len() == 32,
        decreases filled@.len() - i,
    {
        if filled[i].len() != 32 {
            assert(!cmu_canonical(witness_frontier(*w).1[i as int]));
            return false;
        }
        i = i + 1;
    }
    assert forall|k: int| 0 <= k < witness_frontier(*w).1.len() implies (#[trigger] witness_frontier(*w).1[k]).len() == 32 by {
        assert(filled@[k]@.len() == 32);
    }
    let p = witness_into_parts(w);
    witness_parts_wf(&p)
}

/// The stored form of a commitment tree: it reads back as the tree's frontier.
pub fn tree_to_bytes(t: &Tree) -> (r: Vec<u8>)
    ensures
        parse_tree(r@, 0) == Some((tree_frontier(*t), r@.len() as int)),
{
    let p = tree_into_parts(t);
    let r = write_tree(&p);
    proof {
        assert(r@.subrange(0, r@.len() as int) =~= r@);
        lemma_parse_tree(r@, 0, p);
    }
    r
}

/// A commitment tree from its stored form: the frontier stored, whenever it is
/// one that appends produce.
pub fn tree_from_bytes(data: &Vec<u8>) -> (r: Option<Tree>)
    ensures
        r matches Some(t) ==> parse_tree(data@, 0) == Some((tree_frontier(t), data@.len() as int)),
        (parse_tree(data@, 0) matches Some((v, e)) && e == data@.len() && frontier_wf(v)) ==> r.is_some(),
{
    match read_tree(data) {
        Some(p) => if tree_parts_wf(&p) {
            Some(tree_from_parts(&p))
        } else {
            None
        },
        None => None,
    }
}

/// The stored form of a witness: it reads back as the witness's parts.
pub fn witness_to_bytes(w: &Witness) -> (r: Vec<u8>)
    requires
        witness_wf(witness_frontier(*w)),
    ensures
        parse_witness(r@) == Some(witness_frontier(*w)),
{
    assert forall|i: int| 0 <= i < witness_frontier(*w).1.len() implies (#[trigger] witness_frontier(*w).1[i]).len() == 32 by {
        assert(cmu_canonical(witness_frontier(*w).1[i]));
    }
    let p = witness_into_parts(w);
    let r = write_witness(&p);
    proof {
        lemma_parse_witness(r@, p);
    }
    r
}

/// A witness from its stored form: the parts stored, whenever they are ones
/// that appends produce.
pub fn witness_from_bytes(data: &Vec<u8>) -> (r: Option<Witness>)
    ensures
        r matches Some(w) ==> parse_witness(data@) == Some(witness_frontier(w)),
        (parse_witness(data@) matches Some(v) && witness_wf(v)) ==> r.is_some(),
{
    let p = match read_witness(data) {
        Some(p) => p,
        None => return None,
    };
    if !witness_parts_wf(&p) {
        return None;
    }
    let tree = tree_from_parts(&p.tree);
    let cursor = match &p.cursor {
        Some(c) => Some(tree_from_parts(c)),
        None => None,
    };
    Some(witness_from_pieces(tree, &p.filled, cursor))
}

} // verus!
