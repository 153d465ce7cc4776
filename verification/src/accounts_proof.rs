//! Proofs that accounts stand in the accounts tree: the nodes on the way from
//! the accounts to the root, checked from the bottom up.

use vstd::prelude::*;
use crate::account::Account;
use crate::accounts_tree_node::{child_for, node_hash, AccountsTreeNode};
use crate::address::Address;
use crate::hash::Blake2bHash;
use crate::nibbles::{digits_of, starts, AddressNibbles};

verus! {

/// A list of nodes, each branch after the nodes below it, the root last.
#[derive(Debug)]
pub struct AccountsProof {
    pub nodes: Vec<AccountsTreeNode>,
    pub verified: bool,
}

/// Whether a branch covers a node: its prefix starts that of the node and is
/// shorter.
pub open spec fn covers(branch: AccountsTreeNode, node: AccountsTreeNode) -> bool {
    starts(branch.spec_prefix()@, node.spec_prefix()@) && branch.spec_prefix()@.len()
        < node.spec_prefix()@.len()
}

/// Whether a branch names a node as its child: under the node's hash and
/// under the node's prefix.
pub open spec fn names_child(branch: AccountsTreeNode, node: AccountsTreeNode) -> bool {
    match child_for(branch, node.spec_prefix()@) {
        None => false,
        Some(child) => child.hash@ == node_hash(node) && branch.spec_prefix()@ + child.suffix@
            == node.spec_prefix()@,
    }
}

/// The open nodes after a branch took the nodes that it covers from the top
/// of them, or `None` where it does not name one of those as its child.
pub open spec fn settled(open: Seq<AccountsTreeNode>, branch: AccountsTreeNode) -> Option<
    Seq<AccountsTreeNode>,
>
    decreases open.len(),
{
    if open.len() == 0 {
        Some(open)
    } else if covers(branch, open.last()) {
        if names_child(branch, open.last()) {
            settled(open.drop_last(), branch)
        } else {
            None
        }
    } else {
        Some(open)
    }
}

/// The open nodes after the first `n` nodes of a proof, or `None` where the
/// proof has failed by then: a branch first takes the open nodes that it
/// covers, then each node is open itself.
pub open spec fn open_nodes(nodes: Seq<AccountsTreeNode>, n: int) -> Option<Seq<AccountsTreeNode>>
    decreases n,
{
    if n <= 0 {
        Some(Seq::empty())
    } else {
        match open_nodes(nodes, n - 1) {
            None => None,
            Some(open) => if nodes[n - 1] is BranchNode {
                match settled(open, nodes[n - 1]) {
                    None => None,
                    Some(rest) => Some(rest.push(nodes[n - 1])),
                }
            } else {
                Some(open.push(nodes[n - 1]))
            },
        }
    }
}

/// Whether a proof is valid: all of its nodes were taken by branches but the
/// last, which is a branch with the empty prefix.
pub open spec fn proof_valid(nodes: Seq<AccountsTreeNode>) -> bool {
    match open_nodes(nodes, nodes.len() as int) {
        None => false,
        Some(open) => open.len() == 1 && open[0] is BranchNode && open[0].spec_prefix()@.len() == 0,
    }
}

/// The account of the first terminal among the first `n` nodes whose prefix
/// is the given key.
pub open spec fn account_in(nodes: Seq<AccountsTreeNode>, key: Seq<u8>, from: int) -> Option<Account>
    decreases nodes.len() - from,
{
    if from >= nodes.len() {
        None
    } else {
        match nodes[from] {
            AccountsTreeNode::TerminalNode { prefix, account } => if prefix@ == key {
                Some(account)
            } else {
                account_in(nodes, key, from + 1)
            },
            _ => account_in(nodes, key, from + 1),
        }
    }
}

/// Whether the node at position `j` of a proof takes the node at position
/// `i`: it comes later, is a branch that covers the node, and names the node
/// as its child, by hash and by prefix.
pub open spec fn takes(nodes: Seq<AccountsTreeNode>, j: int, i: int) -> bool {
    &&& 0 <= i < j < nodes.len()
    &&& nodes[j] is BranchNode
    &&& covers(nodes[j], nodes[i])
    &&& names_child(nodes[j], nodes[i])
}

/// Whether one of the first `n` nodes of a proof takes the node at position
/// `i`.
pub open spec fn taken(nodes: Seq<AccountsTreeNode>, i: int, n: int) -> bool {
    exists|j: int| j < n && #[trigger] takes(nodes, j, i)
}

/// Whether positions are those of the open nodes after the first `n` nodes
/// of a proof: each names its open node, the last is that of the node that
/// came last, and every other position below `n` is that of a node that was
/// taken.
pub open spec fn open_at(
    nodes: Seq<AccountsTreeNode>,
    n: int,
    open: Seq<AccountsTreeNode>,
    at: Seq<int>,
) -> bool {
    &&& at.len() == open.len()
    &&& forall|k: int| 0 <= k < at.len() ==> 0 <= #[trigger] at[k] < n && open[k] == nodes[at[k]]
    &&& n > 0 ==> at.len() >= 1 && at.last() == n - 1
    &&& forall|i: int| 0 <= i < n ==> #[trigger] taken(nodes, i, n) || at.contains(i)
}

/// What a branch leaves of the open nodes is their lower part; each node
/// above it is covered by the branch and named as its child.
pub proof fn lemma_settled(open: Seq<AccountsTreeNode>, branch: AccountsTreeNode)
    requires
        settled(open, branch) is Some,
    ensures
        settled(open, branch)->0.len() <= open.len(),
        settled(open, branch)->0 == open.subrange(0, settled(open, branch)->0.len() as int),
        forall|k: int|
            settled(open, branch)->0.len() <= k < open.len() ==> covers(branch, #[trigger] open[k])
                && names_child(branch, open[k]),
    decreases open.len(),
{
    let rest = settled(open, branch)->0;
    if open.len() == 0 {
        assert(rest =~= open.subrange(0, 0));
    } else if covers(branch, open.last()) {
        lemma_settled(open.drop_last(), branch);
        assert(rest =~= open.subrange(0, rest.len() as int));
        assert forall|k: int| rest.len() <= k < open.len() implies covers(
            branch,
            #[trigger] open[k],
        ) && names_child(branch, open[k]) by {
            if k < open.len() - 1 {
                assert(open.drop_last()[k] == open[k]);
            }
        }
    } else {
        assert(rest =~= open.subrange(0, open.len() as int));
    }
}

/// The positions of the open nodes after the first `n` nodes of a proof that
/// has not failed by then.
pub proof fn lemma_open_positions(nodes: Seq<AccountsTreeNode>, n: int) -> (at: Seq<int>)
    requires
        0 <= n <= nodes.len(),
        open_nodes(nodes, n) is Some,
    ensures
        open_at(nodes, n, open_nodes(nodes, n)->0, at),
    decreases n,
{
    if n <= 0 {
        Seq::empty()
    } else {
        let before = lemma_open_positions(nodes, n - 1);
        let open = open_nodes(nodes, n - 1)->0;
        let node = nodes[n - 1];
        let kept = if node is BranchNode {
            lemma_settled(open, node);
            settled(open, node)->0.len() as int
        } else {
            open.len() as int
        };
        let at = before.subrange(0, kept).push(n - 1);
        let now = open_nodes(nodes, n)->0;
        assert(now =~= open.subrange(0, kept).push(node));
        assert forall|k: int| 0 <= k < at.len() implies 0 <= #[trigger] at[k] < n && now[k]
            == nodes[at[k]] by {
            if k < kept {
                assert(at[k] == before[k]);
            }
        }
        assert forall|i: int| 0 <= i < n implies #[trigger] taken(nodes, i, n) || at.contains(
            i,
        ) by {
            if i == n - 1 {
                assert(at[at.len() - 1] == i);
            } else if taken(nodes, i, n - 1) {
                let j = choose|j: int| j < n - 1 && #[trigger] takes(nodes, j, i);
                assert(takes(nodes, j, i));
            } else {
                let k = choose|k: int| 0 <= k < before.len() && before[k] == i;
                if k < kept {
                    assert(at[k] == i);
                } else {
                    assert(open[k] == nodes[i]);
                    assert(takes(nodes, n - 1, i));
                }
            }
        }
        at
    }
}

/// In a valid proof the last node is the branch with the empty prefix, and
/// every other node is taken by a branch that comes later: that branch
/// covers the node and names it as its child, by hash and by prefix.
pub proof fn lemma_valid_proof(nodes: Seq<AccountsTreeNode>)
    requires
        proof_valid(nodes),
    ensures
        nodes.len() >= 1,
        nodes.last() is BranchNode,
        nodes.last().spec_prefix()@.len() == 0,
        forall|i: int| 0 <= i < nodes.len() - 1 ==> #[trigger] taken(nodes, i, nodes.len() as int),
{
    let n = nodes.len() as int;
    let at = lemma_open_positions(nodes, n);
    let open = open_nodes(nodes, n)->0;
    assert(at.len() == 1);
    assert(n > 0);
    assert(at[0] == n - 1);
    assert forall|i: int| 0 <= i < n - 1 implies #[trigger] taken(nodes, i, n) by {
        if at.contains(i) {
            let k = choose|k: int| 0 <= k < at.len() && at[k] == i;
            assert(k == 0);
        }
    }
}

impl AccountsProof {
    /// Whether the digit strings of all nodes are sound.
    pub open spec fn wf(&self) -> bool {
        forall|i: int| 0 <= i < self.nodes@.len() ==> (#[trigger] self.nodes@[i]).wf()
    }

    /// A proof that is not verified yet.
    pub fn new(nodes: Vec<AccountsTreeNode>) -> (r: AccountsProof)
        ensures
            r.nodes == nodes,
            !r.verified,
    {
        AccountsProof { nodes, verified: false }
    }

    /// Verifies the proof and remembers the outcome.
    pub fn verify(&mut self) -> (valid: bool)
        requires
            old(self).wf(),
        ensures
            valid == proof_valid(old(self).nodes@),
            final(self).nodes == old(self).nodes,
            final(self).verified == valid,
            valid ==> final(self).nodes@.len() >= 1 && final(self).nodes@.last() is BranchNode
                && final(self).nodes@.last().spec_prefix()@.len() == 0,
            valid ==> forall|i: int|
                0 <= i < final(self).nodes@.len() - 1 ==> #[trigger] taken(
                    final(self).nodes@,
                    i,
                    final(self).nodes@.len() as int,
                ),
    {
        let mut children: Vec<AccountsTreeNode> = Vec::new();
        let mut i: usize = 0;
        while i < self.nodes.len()
            invariant
                i <= self.nodes@.len(),
                self.nodes == old(self).nodes,
                self.verified == old(self).verified,
                self.wf(),
                open_nodes(self.nodes@, i as int) == Some(children@),
                forall|j: int| 0 <= j < children@.len() ==> (#[trigger] children@[j]).wf(),
                i > 0 ==> children@.len() >= 1 && children@.last() == self.nodes@[i - 1],
            decreases self.nodes@.len() - i,
        {
            let node = self.nodes[i];
            proof {
                assert(self.nodes@[i as int].wf());
                lemma_open_fails(self.nodes@, i + 1, self.nodes@.len() as int);
            }
            // If node is a branch node, validate its children.
            if node.is_branch() {
                if !settle(&mut children, &node) {
                    self.verified = false;
                    return false;
                }
            }
            children.push(node);
            i += 1;
        }
        let valid = children.len() == 1 && children[0].prefix().len() == 0
            && children[0].is_branch();
        proof {
            if valid {
                lemma_valid_proof(self.nodes@);
            }
        }
        self.verified = valid;
        valid
    }

    /// The account at an address, if the proof holds it. The proof has to be
    /// verified.
    pub fn get_account(&self, address: &Address) -> (r: Option<Account>)
        requires
            self.verified,
            self.wf(),
        ensures
            r == account_in(self.nodes@, digits_of(address@), 0),
    {
        let key = AddressNibbles::from_address(address);
        let mut i: usize = 0;
        while i < self.nodes.len()
            invariant
                i <= self.nodes@.len(),
                self.wf(),
                key.wf(),
                key@ == digits_of(address@),
                account_in(self.nodes@, key@, 0) == account_in(self.nodes@, key@, i as int),
            decreases self.nodes@.len() - i,
        {
            assert(self.nodes@[i as int].wf());
            if let AccountsTreeNode::TerminalNode { prefix, account } = &self.nodes[i] {
                if prefix.same(&key) {
                    return Some(*account);
                }
            }
            i += 1;
        }
        None
    }

    /// The hash of the last node of a proof that is not empty.
    pub fn root_hash(&self) -> (h: Blake2bHash)
        requires
            self.wf(),
            self.nodes@.len() > 0,
        ensures
            h@ == node_hash(self.nodes@.last()),
    {
        assert(self.nodes@[self.nodes@.len() - 1].wf());
        self.nodes[self.nodes.len() - 1].hash()
    }
}

/// A proof that has failed stays failed.
pub proof fn lemma_open_fails(nodes: Seq<AccountsTreeNode>, n: int, m: int)
    requires
        n <= m,
    ensures
        open_nodes(nodes, n) is None ==> open_nodes(nodes, m) is None,
    decreases m - n,
{
    if n < m {
        lemma_open_fails(nodes, n, m - 1);
    }
}

/// Whether a branch names a node as its child.
fn names(branch: &AccountsTreeNode, node: &AccountsTreeNode) -> (b: bool)
    requires
        branch.wf(),
        node.wf(),
    ensures
        b == names_child(*branch, *node),
{
    match branch.get_child(node.prefix()) {
        None => false,
        Some(entry) => {
            proof {
                match *branch {
                    AccountsTreeNode::BranchNode { prefix, children } => {
                        assert(children@[node.spec_prefix()@[prefix@.len() as int] as int] is Some);
                    },
                    _ => {},
                }
            }
            let hash = node.hash();
            if !entry.hash.same(&hash) {
                return false;
            }
            if branch.prefix().len() + entry.suffix.len() > 40 {
                return false;
            }
            branch.prefix().concat(&entry.suffix).same(node.prefix())
        },
    }
}

/// Lets a branch take the nodes that it covers from the top of the open
/// nodes; `false` where it does not name one of them as its child.
fn settle(children: &mut Vec<AccountsTreeNode>, node: &AccountsTreeNode) -> (b: bool)
    requires
        node.wf(),
        forall|j: int| 0 <= j < old(children)@.len() ==> (#[trigger] old(children)@[j]).wf(),
    ensures
        match settled(old(children)@, *node) {
            Some(rest) => b && final(children)@ == rest,
            None => !b,
        },
        forall|j: int| 0 <= j < final(children)@.len() ==> (#[trigger] final(children)@[j]).wf(),
{
    while children.len() > 0
        invariant
            node.wf(),
            forall|j: int| 0 <= j < children@.len() ==> (#[trigger] children@[j]).wf(),
            settled(old(children)@, *node) == settled(children@, *node),
        decreases children@.len(),
    {
        let child = children[children.len() - 1];
        assert(children@.last().wf());
        if !(node.prefix().is_prefix_of(child.prefix()) && node.prefix().len()
            < child.prefix().len()) {
            return true;
        }
        // If the child is not valid, return false.
        if !names(node, &child) {
            return false;
        }
        children.pop();
    }
    true
}

} // verus!
