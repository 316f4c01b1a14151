//! The Merkle tree: leaves from token records, pairwise reduction to a root, and the
//! sibling path of a token from its leaf up to the root.

use crate::felt::{felt_to_b16, hex_min, Felt};
use crate::hash::{hash, pair_hash, poseidon_many, poseidon_of, values_of};
use vstd::prelude::*;

verus! {

/// One attribute of a token: its key and its value, both encoded as elements.
#[derive(Clone, Copy, Debug)]
pub struct Attribute {
    pub trait_type: Felt,
    pub value: Felt,
}

/// A token record: its id, its name and its attributes in order.
#[derive(Clone, Debug)]
pub struct Token {
    pub token_id: Felt,
    pub name: Felt,
    pub attributes: Vec<Attribute>,
}

impl Token {
    /// Every element of the record is canonical.
    pub open spec fn wf(&self) -> bool {
        &&& self.token_id.wf()
        &&& self.name.wf()
        &&& forall|i: int|
            0 <= i < self.attributes@.len() ==> {
                &&& (#[trigger] self.attributes@[i]).trait_type.wf()
                &&& self.attributes@[i].value.wf()
            }
    }
}

/// The attribute elements in order, each key before its value.
pub open spec fn attr_inputs(s: Seq<Attribute>) -> Seq<Felt>
    decreases s.len(),
{
    if s.len() == 0 {
        seq![]
    } else {
        attr_inputs(s.drop_last()) + seq![s.last().trait_type, s.last().value]
    }
}

/// The elements hashed into a token's leaf: id, name, then the attributes.
pub open spec fn leaf_inputs(t: Token) -> Seq<Felt> {
    seq![t.token_id, t.name] + attr_inputs(t.attributes@)
}

/// The leaf hash of a token.
pub open spec fn leaf_hash(t: Token) -> nat {
    poseidon_of(values_of(leaf_inputs(t)))
}

/// The mathematical shape of a tree: leaves carry a token id, every node a value.
pub enum MTree {
    Leaf { id: nat, value: nat },
    Branch { left: Box<MTree>, right: Box<MTree>, value: nat },
}

impl MTree {
    pub open spec fn value(self) -> nat {
        match self {
            MTree::Leaf { value, .. } => value,
            MTree::Branch { value, .. } => value,
        }
    }
}

/// The token ids below a tree, left to right.
pub open spec fn ids_of(t: MTree) -> Seq<nat>
    decreases t,
{
    match t {
        MTree::Leaf { id, .. } => seq![id],
        MTree::Branch { left, right, .. } => ids_of(*left) + ids_of(*right),
    }
}

/// The leaf of a token.
pub open spec fn leaf_tree(t: Token) -> MTree {
    MTree::Leaf { id: t.token_id.value(), value: leaf_hash(t) }
}

/// The parent of two trees: the one of smaller value on the left, and the pairing
/// hash of the two values.
pub open spec fn join(a: MTree, b: MTree) -> MTree {
    if a.value() < b.value() {
        MTree::Branch { left: Box::new(a), right: Box::new(b), value: pair_hash(a.value(), b.value()) }
    } else {
        MTree::Branch { left: Box::new(b), right: Box::new(a), value: pair_hash(b.value(), a.value()) }
    }
}


/// A level made even: when its length is odd, its last tree once more.
pub open spec fn pad(s: Seq<MTree>) -> Seq<MTree> {
    if s.len() % 2 == 1 {
        s.push(s.last())
    } else {
        s
    }
}

/// The next level of an even level, taking pairs from the end: the k-th parent
/// joins the trees at n-1-2k and n-2-2k.
pub open spec fn pair_up(s: Seq<MTree>) -> Seq<MTree> {
    Seq::new(
        s.len() / 2,
        |k: int| join(s[s.len() - 1 - 2 * k], s[s.len() - 2 - 2 * k]),
    )
}

/// The root that an even level of two or more trees reduces to.
pub open spec fn build(s: Seq<MTree>) -> MTree
    decreases s.len(),
{
    let next = pair_up(s);
    if next.len() <= 1 {
        next[0]
    } else {
        build(pad(next))
    }
}

/// The leaves of a list of tokens, in order.
pub open spec fn leaves(tokens: Seq<Token>) -> Seq<MTree> {
    tokens.map_values(|t: Token| leaf_tree(t))
}

/// The tree committed to a non-empty list of tokens.
pub open spec fn tree_of(tokens: Seq<Token>) -> MTree {
    build(pad(leaves(tokens)))
}

/// The trees of a list of nodes.
pub open spec fn trees(s: Seq<Node>) -> Seq<MTree> {
    s.map_values(|n: Node| n.tree())
}

pub open spec fn all_wf(s: Seq<Node>) -> bool {
    forall|i: int| 0 <= i < s.len() ==> (#[trigger] s[i]).wf()
}


/// The height of a tree.
pub open spec fn height(t: MTree) -> nat
    decreases t,
{
    match t {
        MTree::Leaf { .. } => 0,
        MTree::Branch { left, right, .. } => 1 + vstd::math::max(
            height(*left) as int,
            height(*right) as int,
        ) as nat,
    }
}

/// The sibling values met on the way from the root down to the leaf of `id`, root
/// first: at each parent, go left when the left child reaches `id`, else right.
pub open spec fn path(t: MTree, id: nat) -> Seq<nat>
    decreases t,
{
    match t {
        MTree::Leaf { .. } => seq![],
        MTree::Branch { left, right, .. } => if ids_of(*left).contains(id) {
            seq![right.value()] + path(*left, id)
        } else {
            seq![left.value()] + path(*right, id)
        },
    }
}

/// The proof of `id`: its sibling values from the leaf up to the root.
pub open spec fn proof_of(t: MTree, id: nat) -> Seq<nat> {
    path(t, id).reverse()
}

/// A node of the tree: two children or none, the ids reachable below it, its value.
#[derive(Debug)]
pub struct Node {
    left_child: Option<Box<Node>>,
    right_child: Option<Box<Node>>,
    accessible_token_ids: Vec<Felt>,
    value: Felt,
}

impl Node {
    /// The tree that this node stands for.
    pub closed spec fn tree(&self) -> MTree
        decreases self,
    {
        match self.left_child {
            Some(l) => match self.right_child {
                Some(r) => MTree::Branch {
                    left: Box::new(l.tree()),
                    right: Box::new(r.tree()),
                    value: self.value.value(),
                },
                None => MTree::Leaf { id: self.accessible_token_ids@[0].value(), value: self.value.value() },
            },
            None => MTree::Leaf { id: self.accessible_token_ids@[0].value(), value: self.value.value() },
        }
    }

    /// Both children or none; a leaf reaches one id, a parent the ids of its
    /// children; every element canonical.
    pub closed spec fn wf(&self) -> bool
        decreases self,
    {
        &&& self.value.wf()
        &&& forall|i: int|
            0 <= i < self.accessible_token_ids@.len() ==> (#[trigger] self.accessible_token_ids@[i]).wf()
        &&& match self.left_child {
            Some(l) => match self.right_child {
                Some(r) => {
                    &&& l.wf()
                    &&& r.wf()
                    &&& self.accessible_token_ids@ == l.accessible_token_ids@ + r.accessible_token_ids@
                },
                None => false,
            },
            None => self.right_child.is_none() && self.accessible_token_ids@.len() == 1,
        }
    }

    pub closed spec fn ids(&self) -> Seq<Felt> {
        self.accessible_token_ids@
    }

    /// The parent of `a` and `b`.
    fn new(a: Node, b: Node) -> (r: Node)
        requires
            a.wf(),
            b.wf(),
        ensures
            r.wf(),
            r.tree() == join(a.tree(), b.tree()),
    {
        let (left_child, right_child) = if a.value.lt(&b.value) {
            (a, b)
        } else {
            (b, a)
        };
        let value = hash(&left_child.value, &right_child.value);
        let mut ids: Vec<Felt> = Vec::new();
        let mut i: usize = 0;
        while i < left_child.accessible_token_ids.len()
            invariant
                left_child.wf(),
                i <= left_child.accessible_token_ids@.len(),
                ids@ == left_child.accessible_token_ids@.take(i as int),
            decreases left_child.accessible_token_ids@.len() - i,
        {
            ids.push(left_child.accessible_token_ids[i]);
            i += 1;
            assert(ids@ =~= left_child.accessible_token_ids@.take(i as int));
        }
        assert(ids@ =~= left_child.accessible_token_ids@);
        let mut j: usize = 0;
        while j < right_child.accessible_token_ids.len()
            invariant
                right_child.wf(),
                j <= right_child.accessible_token_ids@.len(),
                ids@ == left_child.accessible_token_ids@ + right_child.accessible_token_ids@.take(j as int),
            decreases right_child.accessible_token_ids@.len() - j,
        {
            ids.push(right_child.accessible_token_ids[j]);
            j += 1;
            assert(ids@ =~= left_child.accessible_token_ids@ + right_child.accessible_token_ids@.take(j as int));
        }
        assert(ids@ =~= left_child.accessible_token_ids@ + right_child.accessible_token_ids@);
        Node {
            left_child: Some(Box::new(left_child)),
            right_child: Some(Box::new(right_child)),
            accessible_token_ids: ids,
            value,
        }
    }

    /// The leaf of a token.
    fn new_leaf(token: &Token) -> (r: Node)
        requires
            token.wf(),
        ensures
            r.wf(),
            r.tree() == leaf_tree(*token),
            r.ids() == seq![token.token_id],
    {
        let mut values: Vec<Felt> = vec![token.token_id, token.name];
        let mut i: usize = 0;
        while i < token.attributes.len()
            invariant
                token.wf(),
                i <= token.attributes@.len(),
                values@ == seq![token.token_id, token.name] + attr_inputs(token.attributes@.take(i as int)),
                forall|k: int| 0 <= k < values@.len() ==> (#[trigger] values@[k]).wf(),
            decreases token.attributes@.len() - i,
        {
            values.push(token.attributes[i].trait_type);
            values.push(token.attributes[i].value);
            i += 1;
            assert(token.attributes@.take(i as int).drop_last() =~= token.attributes@.take(i - 1));
            assert(values@ =~= seq![token.token_id, token.name] + attr_inputs(token.attributes@.take(i as int)));
        }
        assert(token.attributes@.take(i as int) =~= token.attributes@);
        let value = poseidon_many(&values);
        let ids: Vec<Felt> = vec![token.token_id];
        Node { left_child: None, right_child: None, accessible_token_ids: ids, value }
    }

    /// A fresh copy of this node and everything below it.
    fn duplicate(&self) -> (r: Node)
        requires
            self.wf(),
        ensures
            r.wf(),
            r.tree() == self.tree(),
            r.ids() == self.ids(),
        decreases self,
    {
        let mut ids: Vec<Felt> = Vec::new();
        let mut i: usize = 0;
        while i < self.accessible_token_ids.len()
            invariant
                self.wf(),
                i <= self.accessible_token_ids@.len(),
                ids@ == self.accessible_token_ids@.take(i as int),
            decreases self.accessible_token_ids@.len() - i,
        {
            ids.push(self.accessible_token_ids[i]);
            i += 1;
            assert(ids@ =~= self.accessible_token_ids@.take(i as int));
        }
        assert(ids@ =~= self.accessible_token_ids@);
        match (&self.left_child, &self.right_child) {
            (Some(l), Some(r)) => {
                let lc = l.duplicate();
                let rc = r.duplicate();
                Node {
                    left_child: Some(Box::new(lc)),
                    right_child: Some(Box::new(rc)),
                    accessible_token_ids: ids,
                    value: self.value,
                }
            },
            _ => Node { left_child: None, right_child: None, accessible_token_ids: ids, value: self.value },
        }
    }
}


/// The next level of an even level of nodes, taking pairs from the end.
fn pair_level(nodes: Vec<Node>) -> (r: Vec<Node>)
    requires
        nodes@.len() % 2 == 0,
        all_wf(nodes@),
    ensures
        all_wf(r@),
        trees(r@) == pair_up(trees(nodes@)),
{
    let ghost orig = trees(nodes@);
    let ghost n = nodes@.len();
    let mut nodes = nodes;
    let mut next: Vec<Node> = Vec::new();
    while nodes.len() > 0
        invariant
            nodes@.len() % 2 == 0,
            nodes@.len() <= n,
            n == orig.len(),
            n % 2 == 0,
            all_wf(nodes@),
            all_wf(next@),
            trees(nodes@) == orig.take(nodes@.len() as int),
            next@.len() == (n - nodes@.len()) / 2,
            trees(next@) == pair_up(orig).take(next@.len() as int),
        decreases nodes@.len(),
    {
        let ghost m = nodes@.len() as int;
        assert(trees(nodes@)[m - 1] == orig[m - 1]);
        assert(trees(nodes@)[m - 2] == orig[m - 2]);
        let a = nodes.pop().unwrap();
        let b = nodes.pop().unwrap();
        let ghost k = next@.len() as int;
        assert(m - 1 == n - 1 - 2 * k);
        next.push(Node::new(a, b));
        assert(trees(nodes@) =~= orig.take(nodes@.len() as int));
        assert(trees(next@) =~= pair_up(orig).take(next@.len() as int));
    }
    assert(pair_up(orig).take(next@.len() as int) =~= pair_up(orig));
    next
}

/// The root that an even level of nodes reduces to: pair from the end, make the
/// next level even, and go on until one node is left.
fn build_tree(leaves: Vec<Node>) -> (r: Node)
    requires
        leaves@.len() % 2 == 0,
        leaves@.len() >= 2,
        all_wf(leaves@),
    ensures
        r.wf(),
        r.tree() == build(trees(leaves@)),
{
    let mut nodes = leaves;
    loop
        invariant
            nodes@.len() % 2 == 0,
            nodes@.len() >= 2,
            all_wf(nodes@),
            build(trees(nodes@)) == build(trees(leaves@)),
        decreases nodes@.len(),
    {
        let mut next = pair_level(nodes);
        if next.len() == 1 {
            let root = next.pop().unwrap();
            assert(trees(next@.push(root))[0] == root.tree());
            return root;
        }
        pad_level(&mut next);
        nodes = next;
    }
}

/// Makes a level even by appending a copy of its last node when its length is odd.
fn pad_level(nodes: &mut Vec<Node>)
    requires
        all_wf(old(nodes)@),
        old(nodes)@.len() >= 1,
    ensures
        all_wf(final(nodes)@),
        trees(final(nodes)@) == pad(trees(old(nodes)@)),
{
    let n = nodes.len();
    if n % 2 == 1 {
        let last = nodes[n - 1].duplicate();
        nodes.push(last);
        assert(trees(nodes@) =~= pad(trees(old(nodes)@)));
    }
}


/// The leaf hash of a token: Poseidon over its id, its name, then each attribute's
/// key and value in order.
pub fn leaf_value(token: &Token) -> (r: Felt)
    requires
        token.wf(),
    ensures
        r.wf(),
        r.value() == leaf_hash(*token),
{
    let leaf = Node::new_leaf(token);
    proof {
        lemma_node_value(&leaf);
    }
    leaf.value
}

/// The proof of a token, as the hexadecimal text of each sibling value.
pub struct CairoCalldata {
    pub proof: Vec<String>,
}

/// A Merkle tree over a list of tokens, with the tokens it was built from.
pub struct MerkleTree {
    root: Node,
    tokens: Vec<Token>,
}

impl MerkleTree {
    /// The tree that the root stands for.
    pub closed spec fn tree(&self) -> MTree {
        self.root.tree()
    }

    /// The root is well formed and is the tree committed to the tokens.
    pub closed spec fn wf(&self) -> bool {
        &&& self.root.wf()
        &&& self.tokens@.len() >= 1
        &&& self.root.tree() == tree_of(self.tokens@)
    }

    pub closed spec fn tokens_view(&self) -> Seq<Token> {
        self.tokens@
    }

    /// Builds the tree of a non-empty list of tokens: one leaf per token, the last
    /// repeated when their number is odd, then reduced pairwise to a root.
    pub fn new(tokens: Vec<Token>) -> (r: MerkleTree)
        requires
            tokens@.len() >= 1,
            forall|i: int| 0 <= i < tokens@.len() ==> (#[trigger] tokens@[i]).wf(),
        ensures
            r.wf(),
            r.tree() == tree_of(tokens@),
            r.tokens_view() == tokens@,
    {
        let mut level: Vec<Node> = Vec::new();
        let mut i: usize = 0;
        while i < tokens.len()
            invariant
                i <= tokens@.len(),
                forall|j: int| 0 <= j < tokens@.len() ==> (#[trigger] tokens@[j]).wf(),
                all_wf(level@),
                trees(level@) == leaves(tokens@.take(i as int)),
            decreases tokens@.len() - i,
        {
            let leaf = Node::new_leaf(&tokens[i]);
            assert(leaf.tree() == leaf_tree(tokens@[i as int]));
            let ghost before = trees(level@);
            level.push(leaf);
            assert(trees(level@) =~= before.push(leaf_tree(tokens@[i as int])));
            i += 1;
            assert(trees(level@) =~= leaves(tokens@.take(i as int)));
        }
        assert(tokens@.take(i as int) =~= tokens@);
        pad_level(&mut level);
        let root = build_tree(level);
        MerkleTree { root, tokens }
    }

    /// Two trees built from the same list of tokens are the same tree: same root
    /// value, and the same proof for every id.
    pub proof fn lemma_deterministic(t1: &MerkleTree, t2: &MerkleTree, id: nat)
        requires
            t1.wf(),
            t2.wf(),
            t1.tokens_view() == t2.tokens_view(),
        ensures
            t1.tree() == t2.tree(),
            t1.tree().value() == t2.tree().value(),
            proof_of(t1.tree(), id) == proof_of(t2.tree(), id),
    {
    }

    /// The value of the root.
    pub fn root_value(&self) -> (r: Felt)
        requires
            self.wf(),
        ensures
            r.wf(),
            r.value() == self.tree().value(),
    {
        proof {
            lemma_node_value(&self.root);
        }
        self.root.value
    }

    /// The proof of `token_id`, leaf first; `None` when no leaf of the tree has it.
    pub fn proof_for(&self, token_id: &Felt) -> (r: Option<Vec<Felt>>)
        requires
            self.wf(),
        ensures
            r.is_some() <==> ids_of(self.tree()).contains(token_id.value()),
            r.is_some() ==> values_of(r.unwrap()@) == proof_of(self.tree(), token_id.value()),
            r.is_some() ==> forall|i: int|
                0 <= i < r.unwrap()@.len() ==> (#[trigger] r.unwrap()@[i]).wf(),
    {
        let ghost id = token_id.value();
        if !self.root.reaches(token_id) {
            return None;
        }
        let mut hashes: Vec<Felt> = Vec::new();
        let mut current: &Node = &self.root;
        loop
            invariant
                current.wf(),
                ids_of(current.tree()).contains(id),
                id == token_id.value(),
                values_of(hashes@) + path(current.tree(), id) == path(self.root.tree(), id),
                forall|i: int| 0 <= i < hashes@.len() ==> (#[trigger] hashes@[i]).wf(),
            ensures
                values_of(hashes@) == path(self.root.tree(), id),
            decreases height(current.tree()),
        {
            proof {
                lemma_node_shape(current);
            }
            match (&current.left_child, &current.right_child) {
                (Some(left), Some(right)) => {
                    proof {
                        lemma_node_value(left);
                        lemma_node_value(right);
                    }
                    let ghost before = values_of(hashes@);
                    if left.reaches(token_id) {
                        hashes.push(right.value);
                        current = left;
                    } else {
                        hashes.push(left.value);
                        current = right;
                    }
                    assert(values_of(hashes@) =~= before.push(hashes@.last().value()));
                },
                _ => {
                    assert(values_of(hashes@) + path(current.tree(), id) =~= values_of(hashes@));
                    break;
                },
            }
        }
        let mut proof: Vec<Felt> = Vec::new();
        let mut k: usize = hashes.len();
        while k > 0
            invariant
                k <= hashes@.len(),
                values_of(proof@) == values_of(hashes@).reverse().take(hashes@.len() - k),
                forall|i: int| 0 <= i < hashes@.len() ==> (#[trigger] hashes@[i]).wf(),
                forall|i: int| 0 <= i < proof@.len() ==> (#[trigger] proof@[i]).wf(),
            decreases k,
        {
            let ghost before = values_of(proof@);
            let ghost rev = values_of(hashes@).reverse();
            k -= 1;
            proof.push(hashes[k]);
            assert(rev[hashes@.len() - k - 1] == hashes@[k as int].value());
            assert(rev.take(hashes@.len() - k) =~= rev.take(hashes@.len() - k - 1).push(rev[hashes@.len() - k - 1]));
            assert(values_of(proof@) =~= before.push(hashes@[k as int].value()));
        }
        assert(values_of(proof@) =~= values_of(hashes@).reverse());
        Some(proof)
    }

    /// The proof of a token id as hexadecimal text, leaf first, or an error when no
    /// leaf of the tree has that id.
    pub fn token_calldata(&self, token_id: u128) -> (r: Result<CairoCalldata, String>)
        requires
            self.wf(),
        ensures
            r.is_ok() <==> ids_of(self.tree()).contains(token_id as nat),
            r.is_err() ==> r->Err_0@ == "Token ID not found in tree"@,
            r.is_ok() ==> {
                let p = proof_of(self.tree(), token_id as nat);
                &&& r->Ok_0.proof@.len() == p.len()
                &&& forall|i: int|
                    0 <= i < p.len() ==> (#[trigger] r->Ok_0.proof@[i])@ == seq!['0', 'x'] + hex_min(p[i])
            },
    {
        let felt_token_id = Felt::from_u128(token_id);
        match self.proof_for(&felt_token_id) {
            None => Err("Token ID not found in tree".to_owned()),
            Some(hashes) => {
                let mut hash_strings: Vec<String> = Vec::new();
                let mut i: usize = 0;
                while i < hashes.len()
                    invariant
                        i <= hashes@.len(),
                        hash_strings@.len() == i,
                        forall|j: int| 0 <= j < hashes@.len() ==> (#[trigger] hashes@[j]).wf(),
                        forall|j: int|
                            0 <= j < i ==> (#[trigger] hash_strings@[j])@ == seq!['0', 'x'] + hex_min(
                                hashes@[j].value(),
                            ),
                    decreases hashes@.len() - i,
                {
                    hash_strings.push(felt_to_b16(&hashes[i]));
                    i += 1;
                }
                proof {
                    let p = proof_of(self.tree(), token_id as nat);
                    assert forall|j: int| 0 <= j < p.len() implies p[j] == hashes@[j].value() by {
                        assert(values_of(hashes@)[j] == hashes@[j].value());
                    }
                }
                Ok(CairoCalldata { proof: hash_strings })
            },
        }
    }
}

impl Node {
    /// Whether `id` is among the ids that this node reaches.
    fn reaches(&self, id: &Felt) -> (r: bool)
        requires
            self.wf(),
        ensures
            r == ids_of(self.tree()).contains(id.value()),
    {
        proof {
            lemma_node_ids(self);
        }
        let mut i: usize = 0;
        while i < self.accessible_token_ids.len()
            invariant
                i <= self.ids().len(),
                self.ids() == self.accessible_token_ids@,
                values_of(self.ids()) == ids_of(self.tree()),
                forall|j: int| 0 <= j < i ==> self.ids()[j].value() != id.value(),
            decreases self.ids().len() - i,
        {
            if self.accessible_token_ids[i].same(id) {
                assert(values_of(self.ids())[i as int] == id.value());
                assert(values_of(self.ids()).contains(id.value()));
                return true;
            }
            i += 1;
        }
        assert(!values_of(self.ids()).contains(id.value()));
        false
    }
}

/// The ids that a well-formed node holds are those below its tree.
proof fn lemma_node_ids(n: &Node)
    requires
        n.wf(),
    ensures
        values_of(n.ids()) == ids_of(n.tree()),
    decreases n,
{
    match (&n.left_child, &n.right_child) {
        (Some(l), Some(r)) => {
            lemma_node_ids(l);
            lemma_node_ids(r);
            assert(values_of(n.ids()) =~= values_of(l.ids()) + values_of(r.ids()));
        },
        _ => {
            assert(values_of(n.ids()) =~= seq![n.ids()[0].value()]);
        },
    }
}

/// The value of a well-formed node is that of its tree.
proof fn lemma_node_value(n: &Node)
    requires
        n.wf(),
    ensures
        n.value.wf(),
        n.tree().value() == n.value.value(),
{
}

/// A well-formed node has two children, whose trees are those of its own tree, or
/// none, and then its tree is a leaf.
proof fn lemma_node_shape(n: &Node)
    requires
        n.wf(),
    ensures
        n.left_child.is_some() <==> n.right_child.is_some(),
        n.left_child.is_some() ==> n.left_child.unwrap().wf() && n.right_child.unwrap().wf() && n.tree() == (
        MTree::Branch {
            left: Box::new(n.left_child.unwrap().tree()),
            right: Box::new(n.right_child.unwrap().tree()),
            value: n.value.value(),
        }),
        n.left_child.is_none() ==> n.tree() is Leaf,
{
}

} // verus!
