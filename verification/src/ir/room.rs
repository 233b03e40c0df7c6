//! Asking whether there is room for what the passes add.

use super::cfg::targets_of;
use super::opt::operands::operands_of;
use super::refcount::{edge_count, term_values};
use super::ssa::{
    block_in_range, blocks_wf, inst_in_range, targets, term_in_range, values_below, values_wf,
    Block, Func, SFunc, Value,
};
use crate::syntax::Node;
use vstd::prelude::*;

verus! {

/// Whether all values are among the first `n`.
fn all_below(vs: &Vec<Value>, n: usize) -> (r: bool)
    ensures
        r == values_below(vs@, n as nat),
{
    let mut i: usize = 0;
    while i < vs.len()
        invariant
            i <= vs.len(),
            forall|k: int| 0 <= k < i ==> (#[trigger] vs[k]).0 < n,
        decreases vs.len() - i,
    {
        if vs[i].0 as usize >= n {
            assert(!(vs@[i as int].0 < n));
            return false;
        }
        i += 1;
    }
    true
}

/// Whether a block only names the first `n` values.
fn block_ok(b: &Block, n: usize) -> (r: bool)
    ensures
        r == block_in_range(b.sem(), n as nat),
{
    let ghost s = b.sem();
    if !all_below(&b.params, n) {
        return false;
    }
    let mut i: usize = 0;
    while i < b.insts.len()
        invariant
            i <= b.insts.len(),
            s == b.sem(),
            forall|k: int| 0 <= k < i ==> inst_in_range(#[trigger] s.insts[k], n as nat),
        decreases b.insts.len() - i,
    {
        assert(s.insts[i as int] == b.insts[i as int].sem());
        let ops = operands_of(&b.insts[i].op);
        let fits = match b.insts[i].result {
            Some(v) => (v.0 as usize) < n,
            None => true,
        };
        if !fits || !all_below(&ops, n) {
            assert(!inst_in_range(s.insts[i as int], n as nat));
            return false;
        }
        i += 1;
    }
    let vs = term_values(&b.term);
    all_below(&vs, n)
}

/// Whether the ways out of a block go to the first `n` blocks.
fn ways_ok(b: &Block, n: usize) -> (r: bool)
    ensures
        r == term_in_range(b.sem().term, n as nat),
{
    let ts = targets_of(&b.term);
    let ghost s = targets(b.sem().term);
    let mut i: usize = 0;
    while i < ts.len()
        invariant
            i <= ts.len() == s.len(),
            forall|k: int| 0 <= k < ts.len() ==> (#[trigger] ts[k]).sem() == s[k],
            s == targets(b.sem().term),
            forall|k: int| 0 <= k < i ==> (#[trigger] s[k]).to.0 < n,
        decreases ts.len() - i,
    {
        assert(ts[i as int].sem() == s[i as int]);
        if ts[i].to.0 as usize >= n {
            assert(!(s[i as int].to.0 < n));
            return false;
        }
        i += 1;
    }
    true
}

/// Whether a function is well-formed.
pub fn is_well_formed(f: &Func) -> (r: bool)
    ensures
        r == (blocks_wf(f.sem()) && values_wf(f.sem())),
{
    let ghost s = f.sem();
    let n: usize = f.blocks.len();
    let m: usize = f.values.len();
    assert(s.blocks.len() == n);
    assert(s.values.len() == m);
    if n > 0xffff_ffff || m > 0xffff_ffff || f.entry.0 as usize >= n || !all_below(&f.params, m) {
        return false;
    }
    let mut i: usize = 0;
    while i < n
        invariant
            i <= n == f.blocks.len(),
            m == f.values.len(),
            s == f.sem(),
            s.blocks.len() == n,
            s.values.len() == m,
            forall|k: int|
                0 <= k < i ==> (#[trigger] s.blocks[k]).id.0 == k && term_in_range(
                    s.blocks[k].term,
                    n as nat,
                ) && block_in_range(s.blocks[k], m as nat),
        decreases n - i,
    {
        let b = &f.blocks[i];
        assert(s.blocks[i as int] == b.sem());
        if b.id.0 as usize != i || !ways_ok(b, n) || !block_ok(b, m) {
            assert(!(s.blocks[i as int].id.0 == i) || !term_in_range(
                s.blocks[i as int].term,
                n as nat,
            ) || !block_in_range(s.blocks[i as int], m as nat));
            return false;
        }
        i += 1;
    }
    true
}

proof fn lemma_edges_grow(f: SFunc, i: int, j: int)
    requires
        0 <= i <= j,
    ensures
        edge_count(f, i) <= edge_count(f, j),
    decreases j,
{
    if i < j {
        lemma_edges_grow(f, i, j - 1);
    }
}

/// How many edges a function has, if they can be numbered.
pub fn edges_of(f: &Func) -> (r: Option<usize>)
    ensures
        match r {
            Some(e) => e == edge_count(f.sem(), f.blocks.len() as int) && e <= u32::MAX,
            None => edge_count(f.sem(), f.blocks.len() as int) > u32::MAX,
        },
{
    let ghost s = f.sem();
    let mut e: usize = 0;
    let mut i: usize = 0;
    while i < f.blocks.len()
        invariant
            i <= f.blocks.len(),
            s == f.sem(),
            e == edge_count(s, i as int),
            e <= u32::MAX,
        decreases f.blocks.len() - i,
    {
        assert(s.blocks[i as int] == f.blocks[i as int].sem());
        let k: usize = targets_of(&f.blocks[i].term).len();
        proof {
            lemma_edges_grow(s, i + 1, f.blocks.len() as int);
        }
        if k > 0xffff_ffff || e > 0xffff_ffff - k {
            return None;
        }
        e = e + k;
        i += 1;
    }
    Some(e)
}

} // verus!
