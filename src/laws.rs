//! What holds of every tree built from a list of tokens.

use crate::hash::{lemma_pair_hash_symmetric, pair_hash, values_of};
use crate::merkle::{
    attr_inputs, build, ids_of, join, leaf_hash, leaf_inputs, leaf_tree, leaves, pad, pair_up,
    path, proof_of, tree_of, MTree, Token,
};
use vstd::prelude::*;

verus! {

/// Folds sibling values into a leaf value, leaf first: at each step the pairing hash
/// of the value so far and the next sibling.
pub open spec fn fold(v: nat, p: Seq<nat>) -> nat
    decreases p.len(),
{
    if p.len() == 0 {
        v
    } else {
        fold(pair_hash(v, p[0]), p.drop_first())
    }
}

/// No two tokens of the list share an id.
pub open spec fn unique_ids(tokens: Seq<Token>) -> bool {
    forall|i: int, j: int|
        0 <= i < tokens.len() && 0 <= j < tokens.len() && #[trigger] tokens[i].token_id.value()
            == #[trigger] tokens[j].token_id.value() ==> i == j
}

/// The ids of a list of tokens.
pub open spec fn token_ids(tokens: Seq<Token>) -> Set<nat> {
    Set::new(|x: nat| exists|i: int| 0 <= i < tokens.len() && tokens[i].token_id.value() == x)
}

/// The ids below the trees of a level.
pub open spec fn level_ids(s: Seq<MTree>) -> Set<nat> {
    Set::new(|x: nat| exists|i: int| 0 <= i < s.len() && ids_of(s[i]).contains(x))
}

/// Every parent's value is the pairing hash of its children's values.
pub open spec fn hashed(t: MTree) -> bool
    decreases t,
{
    match t {
        MTree::Leaf { .. } => true,
        MTree::Branch { left, right, value } => {
            &&& value == pair_hash(left.value(), right.value())
            &&& hashed(*left)
            &&& hashed(*right)
        },
    }
}

/// Every leaf is the leaf of one of the tokens.
pub open spec fn from_tokens(t: MTree, tokens: Seq<Token>) -> bool
    decreases t,
{
    match t {
        MTree::Leaf { .. } => exists|j: int| 0 <= j < tokens.len() && leaf_tree(tokens[j]) == t,
        MTree::Branch { left, right, .. } => from_tokens(*left, tokens) && from_tokens(*right, tokens),
    }
}

pub open spec fn level_ok(s: Seq<MTree>, tokens: Seq<Token>) -> bool {
    forall|i: int| 0 <= i < s.len() ==> hashed(#[trigger] s[i]) && from_tokens(s[i], tokens)
}

proof fn lemma_fold_push(v: nat, a: Seq<nat>, x: nat)
    ensures
        fold(v, a.push(x)) == pair_hash(fold(v, a), x),
    decreases a.len(),
{
    if a.len() > 0 {
        assert(a.push(x).drop_first() =~= a.drop_first().push(x));
        assert(a.push(x)[0] == a[0]);
        lemma_fold_push(pair_hash(v, a[0]), a.drop_first(), x);
        assert(fold(v, a) == fold(pair_hash(v, a[0]), a.drop_first()));
        assert(fold(v, a.push(x)) == fold(pair_hash(v, a[0]), a.drop_first().push(x)));
    } else {
        assert(a.push(x).drop_first() =~= Seq::<nat>::empty());
        assert(a.push(x)[0] == x);
        assert(fold(pair_hash(v, x), Seq::<nat>::empty()) == pair_hash(v, x));
        assert(fold(v, a) == v);
    }
}

proof fn lemma_concat_set(a: Seq<nat>, b: Seq<nat>)
    ensures
        (a + b).to_set() == a.to_set() + b.to_set(),
        (b + a).to_set() == a.to_set() + b.to_set(),
{
    assert forall|x: nat| (a + b).contains(x) <==> a.contains(x) || b.contains(x) by {
        if (a + b).contains(x) {
            let i = choose|i: int| 0 <= i < (a + b).len() && (a + b)[i] == x;
            if i >= a.len() {
                assert(b[i - a.len()] == x);
            }
        }
        if b.contains(x) {
            let i = choose|i: int| 0 <= i < b.len() && b[i] == x;
            assert((a + b)[i + a.len()] == x);
        }
        if a.contains(x) {
            let i = choose|i: int| 0 <= i < a.len() && a[i] == x;
            assert((a + b)[i] == x);
        }
    }
    assert forall|x: nat| (b + a).contains(x) <==> a.contains(x) || b.contains(x) by {
        if (b + a).contains(x) {
            let i = choose|i: int| 0 <= i < (b + a).len() && (b + a)[i] == x;
            if i >= b.len() {
                assert(a[i - b.len()] == x);
            }
        }
        if a.contains(x) {
            let i = choose|i: int| 0 <= i < a.len() && a[i] == x;
            assert((b + a)[i + b.len()] == x);
        }
        if b.contains(x) {
            let i = choose|i: int| 0 <= i < b.len() && b[i] == x;
            assert((b + a)[i] == x);
        }
    }
    assert((a + b).to_set() =~= a.to_set() + b.to_set());
    assert((b + a).to_set() =~= a.to_set() + b.to_set());
}

proof fn lemma_join_ok(a: MTree, b: MTree, tokens: Seq<Token>)
    requires
        hashed(a) && from_tokens(a, tokens),
        hashed(b) && from_tokens(b, tokens),
    ensures
        hashed(join(a, b)),
        from_tokens(join(a, b), tokens),
        ids_of(join(a, b)).to_set() == ids_of(a).to_set() + ids_of(b).to_set(),
{
    if a.value() < b.value() {
        lemma_concat_set(ids_of(a), ids_of(b));
    } else {
        lemma_concat_set(ids_of(b), ids_of(a));
    }
}

proof fn lemma_pad(s: Seq<MTree>, tokens: Seq<Token>)
    requires
        s.len() >= 1,
        level_ok(s, tokens),
    ensures
        level_ok(pad(s), tokens),
        level_ids(pad(s)) == level_ids(s),
        pad(s).len() % 2 == 0,
        pad(s).len() >= 2,
{
    let p = pad(s);
    assert(level_ids(p) =~= level_ids(s)) by {
        assert forall|x: nat| level_ids(p).contains(x) implies level_ids(s).contains(x) by {
            let i = choose|i: int| 0 <= i < p.len() && ids_of(p[i]).contains(x);
            if i < s.len() {
                assert(ids_of(s[i]).contains(x));
            } else {
                assert(ids_of(s[s.len() - 1]).contains(x));
            }
        }
        assert forall|x: nat| level_ids(s).contains(x) implies level_ids(p).contains(x) by {
            let i = choose|i: int| 0 <= i < s.len() && ids_of(s[i]).contains(x);
            assert(ids_of(p[i]).contains(x));
        }
    }
}

proof fn lemma_pair_up(s: Seq<MTree>, tokens: Seq<Token>)
    requires
        s.len() % 2 == 0,
        level_ok(s, tokens),
    ensures
        level_ok(pair_up(s), tokens),
        level_ids(pair_up(s)) == level_ids(s),
{
    let n = s.len();
    let p = pair_up(s);
    assert forall|k: int| 0 <= k < p.len() implies hashed(#[trigger] p[k]) && from_tokens(p[k], tokens) by {
        lemma_join_ok(s[n - 1 - 2 * k], s[n - 2 - 2 * k], tokens);
    }
    assert(level_ids(p) =~= level_ids(s)) by {
        assert forall|x: nat| level_ids(p).contains(x) implies level_ids(s).contains(x) by {
            let k = choose|k: int| 0 <= k < p.len() && ids_of(p[k]).contains(x);
            lemma_join_ok(s[n - 1 - 2 * k], s[n - 2 - 2 * k], tokens);
            assert(ids_of(p[k]).to_set().contains(x));
            if ids_of(s[n - 1 - 2 * k]).to_set().contains(x) {
                assert(ids_of(s[n - 1 - 2 * k]).contains(x));
            } else {
                assert(ids_of(s[n - 2 - 2 * k]).contains(x));
            }
        }
        assert forall|x: nat| level_ids(s).contains(x) implies level_ids(p).contains(x) by {
            let i = choose|i: int| 0 <= i < s.len() && ids_of(s[i]).contains(x);
            let k = (n - 1 - i) / 2;
            lemma_join_ok(s[n - 1 - 2 * k], s[n - 2 - 2 * k], tokens);
            assert(ids_of(s[i]).to_set().contains(x));
            assert(ids_of(p[k]).to_set().contains(x));
            assert(ids_of(p[k]).contains(x));
        }
    }
}

proof fn lemma_build(s: Seq<MTree>, tokens: Seq<Token>)
    requires
        s.len() % 2 == 0,
        s.len() >= 2,
        level_ok(s, tokens),
    ensures
        hashed(build(s)),
        from_tokens(build(s), tokens),
        ids_of(build(s)).to_set() == level_ids(s),
    decreases s.len(),
{
    let next = pair_up(s);
    lemma_pair_up(s, tokens);
    if next.len() <= 1 {
        assert(ids_of(next[0]).to_set() =~= level_ids(next)) by {
            assert forall|x: nat| level_ids(next).contains(x) implies ids_of(next[0]).to_set().contains(x) by {
                let k = choose|k: int| 0 <= k < next.len() && ids_of(next[k]).contains(x);
                assert(k == 0);
            }
        }
    } else {
        lemma_pad(next, tokens);
        lemma_build(pad(next), tokens);
    }
}

/// The tree of a non-empty list of tokens is well hashed, made of the tokens' leaves,
/// and reaches exactly the tokens' ids.
proof fn lemma_tree_of(tokens: Seq<Token>)
    requires
        tokens.len() >= 1,
    ensures
        hashed(tree_of(tokens)),
        from_tokens(tree_of(tokens), tokens),
        ids_of(tree_of(tokens)).to_set() == token_ids(tokens),
{
    let l = leaves(tokens);
    assert(level_ok(l, tokens)) by {
        assert forall|i: int| 0 <= i < l.len() implies hashed(#[trigger] l[i]) && from_tokens(l[i], tokens) by {
            assert(leaf_tree(tokens[i]) == l[i]);
        }
    }
    assert(level_ids(l) =~= token_ids(tokens)) by {
        assert forall|x: nat| level_ids(l).contains(x) implies token_ids(tokens).contains(x) by {
            let i = choose|i: int| 0 <= i < l.len() && ids_of(l[i]).contains(x);
            assert(ids_of(l[i]) == seq![tokens[i].token_id.value()]);
        }
        assert forall|x: nat| token_ids(tokens).contains(x) implies level_ids(l).contains(x) by {
            let i = choose|i: int| 0 <= i < tokens.len() && tokens[i].token_id.value() == x;
            assert(ids_of(l[i]) == seq![x]);
            assert(ids_of(l[i])[0] == x);
        }
    }
    lemma_pad(l, tokens);
    lemma_build(pad(l), tokens);
}

/// Folding the leaf hash of a token with its proof gives back the value of a well
/// hashed tree that is made of the tokens' leaves and reaches its id.
proof fn lemma_fold_path(t: MTree, tokens: Seq<Token>, j: int)
    requires
        hashed(t),
        from_tokens(t, tokens),
        unique_ids(tokens),
        0 <= j < tokens.len(),
        ids_of(t).contains(tokens[j].token_id.value()),
    ensures
        fold(leaf_hash(tokens[j]), proof_of(t, tokens[j].token_id.value())) == t.value(),
    decreases t,
{
    let id = tokens[j].token_id.value();
    match t {
        MTree::Leaf { id: lid, value } => {
            assert(ids_of(t)[0] == lid);
            let k = choose|k: int| 0 <= k < tokens.len() && leaf_tree(tokens[k]) == t;
            assert(tokens[k].token_id.value() == tokens[j].token_id.value());
            assert(proof_of(t, id) =~= Seq::<nat>::empty());
        },
        MTree::Branch { left, right, value } => {
            if ids_of(*left).contains(id) {
                lemma_fold_path(*left, tokens, j);
                assert(proof_of(t, id) =~= proof_of(*left, id).push(right.value()));
                lemma_fold_push(leaf_hash(tokens[j]), proof_of(*left, id), right.value());
            } else {
                assert(ids_of(*right).contains(id)) by {
                    let i = choose|i: int| 0 <= i < ids_of(t).len() && ids_of(t)[i] == id;
                    assert(ids_of(*right)[i - ids_of(*left).len()] == id);
                }
                lemma_fold_path(*right, tokens, j);
                assert(proof_of(t, id) =~= proof_of(*right, id).push(left.value()));
                lemma_fold_push(leaf_hash(tokens[j]), proof_of(*right, id), left.value());
                lemma_pair_hash_symmetric(left.value(), right.value());
            }
        },
    }
}

/// Every token's leaf hash, folded with its proof, gives the root value, when no two
/// tokens share an id.
pub proof fn lemma_round_trip(tokens: Seq<Token>, i: int)
    requires
        tokens.len() >= 1,
        0 <= i < tokens.len(),
        unique_ids(tokens),
    ensures
        ids_of(tree_of(tokens)).contains(tokens[i].token_id.value()),
        fold(leaf_hash(tokens[i]), proof_of(tree_of(tokens), tokens[i].token_id.value()))
            == tree_of(tokens).value(),
{
    lemma_tree_of(tokens);
    assert(token_ids(tokens).contains(tokens[i].token_id.value()));
    lemma_fold_path(tree_of(tokens), tokens, i);
}

/// The ids reachable from the root are exactly the ids of the tokens.
pub proof fn lemma_completeness(tokens: Seq<Token>)
    requires
        tokens.len() >= 1,
    ensures
        ids_of(tree_of(tokens)).to_set() == token_ids(tokens),
{
    lemma_tree_of(tokens);
}

/// An id is reachable from the root exactly when some token has it; so a proof is
/// refused exactly for the ids that no token has.
pub proof fn lemma_membership(tokens: Seq<Token>, id: nat)
    requires
        tokens.len() >= 1,
    ensures
        ids_of(tree_of(tokens)).contains(id) <==> exists|i: int|
            0 <= i < tokens.len() && tokens[i].token_id.value() == id,
{
    lemma_tree_of(tokens);
    assert(ids_of(tree_of(tokens)).to_set().contains(id) == ids_of(tree_of(tokens)).contains(id));
    assert(token_ids(tokens).contains(id) == exists|i: int|
        0 <= i < tokens.len() && tokens[i].token_id.value() == id);
}

/// The tree of a single token is its leaf joined with itself: the root value is the
/// pairing hash of the leaf hash with itself.
pub proof fn lemma_singleton(t: Token)
    ensures
        tree_of(seq![t]) == join(leaf_tree(t), leaf_tree(t)),
        tree_of(seq![t]).value() == pair_hash(leaf_hash(t), leaf_hash(t)),
{
    let l = leaves(seq![t]);
    assert(pad(l) =~= seq![leaf_tree(t), leaf_tree(t)]);
    assert(pair_up(pad(l)) =~= seq![join(leaf_tree(t), leaf_tree(t))]);
}

/// The attribute keys and values of a list of attributes, as pairs of values.
pub open spec fn attr_pairs(tokens_attrs: Seq<crate::merkle::Attribute>) -> Seq<(nat, nat)> {
    tokens_attrs.map_values(|a: crate::merkle::Attribute| (a.trait_type.value(), a.value.value()))
}

proof fn lemma_attr_inputs(s: Seq<crate::merkle::Attribute>)
    ensures
        attr_inputs(s).len() == 2 * s.len(),
        forall|k: int|
            0 <= k < s.len() ==> attr_inputs(s)[2 * k] == (#[trigger] s[k]).trait_type && attr_inputs(
                s,
            )[2 * k + 1] == s[k].value,
    decreases s.len(),
{
    if s.len() > 0 {
        let p = s.drop_last();
        lemma_attr_inputs(p);
        assert forall|k: int| 0 <= k < s.len() implies attr_inputs(s)[2 * k] == (#[trigger] s[k]).trait_type
            && attr_inputs(s)[2 * k + 1] == s[k].value by {
            if k < p.len() {
                assert(p[k] == s[k]);
            }
        }
    }
}

/// Two tokens with the same id and name whose attributes differ as sequences of
/// key and value (in another order, for one) hash different sequences of values
/// into their leaves.
pub proof fn lemma_attribute_order(t1: Token, t2: Token)
    requires
        t1.token_id.value() == t2.token_id.value(),
        t1.name.value() == t2.name.value(),
        attr_pairs(t1.attributes@) != attr_pairs(t2.attributes@),
    ensures
        values_of(leaf_inputs(t1)) != values_of(leaf_inputs(t2)),
{
    let a1 = t1.attributes@;
    let a2 = t2.attributes@;
    lemma_attr_inputs(a1);
    lemma_attr_inputs(a2);
    if values_of(leaf_inputs(t1)) == values_of(leaf_inputs(t2)) {
        let v1 = values_of(leaf_inputs(t1));
        let v2 = values_of(leaf_inputs(t2));
        assert(v1.len() == v2.len());
        assert forall|k: int| 0 <= k < a1.len() implies attr_pairs(a1)[k] == attr_pairs(a2)[k] by {
            assert(v1[2 * k + 2] == v2[2 * k + 2]);
            assert(v1[2 * k + 3] == v2[2 * k + 3]);
        }
        assert(attr_pairs(a1) =~= attr_pairs(a2));
    }
}

} // verus!
