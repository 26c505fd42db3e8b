//! The shape of the model: widths, names and the causal mask.
use vstd::prelude::*;

use crate::number;

verus! {

/// The widths of an attention layer.
pub struct CausalSelfAttention {
    /// The width of an embedding.
    pub n_embd: usize,
    /// The number of heads.
    pub n_head: usize,
    /// The width of a head.
    pub head_dim: usize,
    /// The width of the projection that yields queries, keys and values side by side.
    pub qkv_width: usize,
}

/// How an attention layer cuts up and puts together a batch.
pub struct AttentionPlan {
    /// Where the queries begin in the projection.
    pub query: usize,
    /// Where the keys begin in the projection.
    pub key: usize,
    /// Where the values begin in the projection.
    pub value: usize,
    /// The width of the queries, of the keys and of the values.
    pub width: usize,
    /// The shape of each of them with its heads apart: batch, positions, heads, width of a head.
    pub heads: (usize, usize, usize, usize),
    /// The shape of the result with the heads merged: batch, positions, width.
    pub merged: (usize, usize, usize),
    /// The shape of the mask: one for all of the batch and for all heads.
    pub mask_shape: (usize, usize, usize, usize),
    /// Which positions see which, row by row.
    pub mask: Vec<bool>,
}

impl CausalSelfAttention {
    /// The layer for embeddings of width `n_embd`, with `n_head` heads.
    pub fn new(n_embd: usize, n_head: usize) -> (layer: CausalSelfAttention)
        requires
            n_head > 0,
            3 * n_embd <= usize::MAX,
        ensures
            layer.n_embd == n_embd,
            layer.n_head == n_head,
            layer.head_dim == n_embd as int / n_head as int,
            layer.qkv_width == 3 * n_embd,
    {
        CausalSelfAttention { n_embd, n_head, head_dim: n_embd / n_head, qkv_width: 3 * n_embd }
    }

    /// The plan for a batch of `b` sequences of `t` positions of width `c`.
    pub fn plan(&self, b: usize, t: usize, c: usize) -> (plan: AttentionPlan)
        requires
            2 * c <= usize::MAX,
            t * t <= usize::MAX,
        ensures
            plan.query == 0,
            plan.key == c,
            plan.value == 2 * c,
            plan.width == c,
            plan.heads == (b, t, self.n_head, self.head_dim),
            plan.merged == (b, t, c),
            plan.mask_shape == (1usize, 1usize, t, t),
            plan.mask@ == visible(t as int),
    {
        AttentionPlan {
            query: 0,
            key: c,
            value: c * 2,
            width: c,
            heads: (b, t, self.n_head, self.head_dim),
            merged: (b, t, c),
            mask_shape: (1, 1, t, t),
            mask: causal_mask(t),
        }
    }
}

/// Which positions see which, row by row, among `t` positions: column `i % t` is seen from row
/// `i / t` if it does not come after it.
pub open spec fn visible(t: int) -> Seq<bool> {
    Seq::new((t * t) as nat, |i: int| i % t <= i / t)
}

/// The causal mask of `t` positions, row by row: `true` where the position of the column is seen
/// from that of the row.
pub fn causal_mask(t: usize) -> (mask: Vec<bool>)
    requires
        t * t <= usize::MAX,
    ensures
        mask@ == visible(t as int),
{
    let n: usize = t * t;
    let mut mask: Vec<bool> = Vec::new();
    for i in 0..n
        invariant
            n == t * t,
            mask@ == visible(t as int).take(i as int),
    {
        assert(t > 0) by (nonlinear_arith)
            requires
                t * t > 0,
                t >= 0,
        ;
        mask.push((i % t) <= (i / t));
    }
    mask
}

/// The width of the hidden layer of a block's perceptron.
pub fn mlp_width(n_embd: usize) -> (width: usize)
    requires
        4 * n_embd <= usize::MAX,
    ensures
        width == 4 * n_embd,
{
    4 * n_embd
}

/// The shape of the logits of a batch with all its positions in one row: positions, characters.
pub fn flat_shape(b: usize, t: usize, v: usize) -> (shape: (usize, usize))
    requires
        b * t <= usize::MAX,
    ensures
        shape.0 == b * t,
        shape.1 == v,
{
    (b * t, v)
}

/// The row of the logits of `t` positions that speaks of the token after them: the last.
pub fn last_row(t: usize) -> (row: usize)
    requires
        t > 0,
    ensures
        row == t - 1,
{
    t - 1
}

/// The name under which the weights of the block with index `i` are kept.
pub open spec fn block_name(i: nat) -> Seq<char> {
    "h."@ + number::decimal(i)
}

/// The names under which the weights of `n_layer` blocks are kept, in order.
pub fn block_names(n_layer: usize) -> (names: Vec<String>)
    ensures
        names@.len() == n_layer,
        forall|i: int| 0 <= i < n_layer ==> (#[trigger] names@[i])@ == block_name(i as nat),
{
    let mut names: Vec<String> = Vec::new();
    for i in 0..n_layer
        invariant
            names@.len() == i,
            forall|j: int| 0 <= j < i ==> (#[trigger] names@[j])@ == block_name(j as nat),
    {
        let mut name: String = "h.".to_owned();
        name.push_str(number::to_decimal(i as u64).as_str());
        names.push(name);
    }
    names
}

/// Each position sees itself and the positions before it, and none after it.
pub proof fn law_no_position_sees_the_future(t: int, row: int, col: int)
    requires
        0 <= row < t,
        0 <= col < t,
    ensures
        0 <= row * t + col < visible(t).len(),
        visible(t)[row * t + col] == (col <= row),
{
    vstd::arithmetic::div_mod::lemma_fundamental_div_mod_converse(row * t + col, t, row, col);
    assert(0 <= row * t + col < t * t) by (nonlinear_arith)
        requires
            0 <= row < t,
            0 <= col < t,
    ;
}

/// Where the heads share the width evenly, taking them apart keeps every number: `b` sequences of
/// `t` positions hold as many with the heads apart as with the heads merged.
pub proof fn law_heads_fill_the_width(b: nat, t: nat, n_embd: nat, n_head: nat)
    requires
        n_head > 0,
        n_embd % n_head == 0,
    ensures
        b * t * n_head * (n_embd / n_head) == b * t * n_embd,
{
    vstd::arithmetic::div_mod::lemma_fundamental_div_mod(n_embd as int, n_head as int);
    let head_dim = n_embd / n_head;
    assert(b * t * n_head * head_dim == b * t * (n_head * head_dim)) by (nonlinear_arith);
}

/// No two blocks share a name.
pub proof fn law_block_names_differ(i: nat, j: nat)
    ensures
        block_name(i) == block_name(j) ==> i == j,
{
    if block_name(i) == block_name(j) {
        let prefix = "h."@.len() as int;
        assert(block_name(i).skip(prefix) == number::decimal(i));
        assert(block_name(j).skip(prefix) == number::decimal(j));
        number::lemma_decimal(i);
        number::lemma_decimal(j);
    }
}

/// A block is named by its index in decimal, behind `h.`.
pub proof fn law_block_name(i: nat)
    ensures
        block_name(i) == seq!['h', '.'] + number::decimal(i),
{
    reveal_strlit("h.");
    assert("h."@ == seq!['h', '.']);
}

/// There is a place in the mask for each pair of positions, and no more.
pub proof fn law_mask_size(t: int)
    requires
        0 <= t,
    ensures
        visible(t).len() == t * t,
{
    assert(t * t >= 0) by (nonlinear_arith);
}

} // verus!
