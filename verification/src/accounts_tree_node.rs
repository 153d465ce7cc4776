//! The nodes of the accounts tree: branches that name their children by
//! hash, and terminals that hold an account.

use vstd::prelude::*;
use crate::account::{account_bytes, Account};
use crate::bytes::put_bytes;
use crate::hash::{blake2b_digest, Blake2bHash};
use crate::nibbles::AddressNibbles;

verus! {

/// A child as its branch names it: the digits that lead from the branch to
/// the child, and the hash of the child.
#[derive(Clone, Copy, Debug, PartialEq, Eq)]
pub struct AccountsTreeNodeChild {
    pub suffix: AddressNibbles,
    pub hash: Blake2bHash,
}

/// A node of the accounts tree.
#[derive(Clone, Copy, Debug, PartialEq, Eq)]
pub enum AccountsTreeNode {
    BranchNode { prefix: AddressNibbles, children: [Option<AccountsTreeNodeChild>; 16] },
    TerminalNode { prefix: AddressNibbles, account: Account },
}

/// The bytes of a string of digits: its length, then a byte for each digit.
pub open spec fn nibbles_bytes(digits: Seq<u8>) -> Seq<u8> {
    seq![digits.len() as u8] + digits
}

/// The bytes of the first `n` children of a branch: for each place a zero
/// where there is no child, else a one, the child's suffix and its hash.
pub open spec fn children_bytes(children: Seq<Option<AccountsTreeNodeChild>>, n: int) -> Seq<u8>
    decreases n,
{
    if n <= 0 {
        Seq::empty()
    } else {
        children_bytes(children, n - 1) + match children[n - 1] {
            None => seq![0u8],
            Some(child) => seq![1u8] + nibbles_bytes(child.suffix@) + child.hash@,
        }
    }
}

/// The bytes of a node: a byte for its kind, its prefix, and its children or
/// its account.
pub open spec fn node_bytes(node: AccountsTreeNode) -> Seq<u8> {
    match node {
        AccountsTreeNode::BranchNode { prefix, children } => seq![0u8] + nibbles_bytes(prefix@)
            + children_bytes(children@, 16),
        AccountsTreeNode::TerminalNode { prefix, account } => seq![255u8] + nibbles_bytes(prefix@)
            + account_bytes(account),
    }
}

/// The hash of a node.
pub open spec fn node_hash(node: AccountsTreeNode) -> Seq<u8> {
    blake2b_digest(node_bytes(node))
}

/// The child that a branch names for a key: the one at the place of the
/// key's first digit after the prefix of the branch.
pub open spec fn child_for(node: AccountsTreeNode, key: Seq<u8>) -> Option<AccountsTreeNodeChild> {
    match node {
        AccountsTreeNode::BranchNode { prefix, children } => if prefix@.len() < key.len() && key[prefix@.len() as int]
            < 16 {
            children@[key[prefix@.len() as int] as int]
        } else {
            None
        },
        AccountsTreeNode::TerminalNode { .. } => None,
    }
}

/// Appends the bytes of a string of digits.
fn put_nibbles(out: &mut Vec<u8>, digits: &AddressNibbles)
    requires
        digits.wf(),
    ensures
        final(out)@ == old(out)@ + nibbles_bytes(digits@),
{
    out.push(digits.len as u8);
    let mut i: usize = 0;
    while i < digits.len
        invariant
            i <= digits.len,
            digits.len <= 40,
            out@ == old(out)@ + seq![digits.len as u8] + digits@.subrange(0, i as int),
        decreases digits.len - i,
    {
        out.push(digits.digits[i]);
        assert(out@ =~= old(out)@ + seq![digits.len as u8] + digits@.subrange(0, i + 1));
        i += 1;
    }
    assert(digits@.subrange(0, digits.len as int) =~= digits@);
    assert(out@ =~= old(out)@ + nibbles_bytes(digits@));
}

impl AccountsTreeNode {
    /// Whether the digit strings of the node are sound.
    pub open spec fn wf(&self) -> bool {
        match *self {
            AccountsTreeNode::BranchNode { prefix, children } => prefix.wf() && forall|i: int|
                0 <= i < 16 && (#[trigger] children@[i]) is Some ==> children@[i]->0.suffix.wf(),
            AccountsTreeNode::TerminalNode { prefix, account } => prefix.wf(),
        }
    }

    /// The prefix of the node.
    pub open spec fn spec_prefix(&self) -> AddressNibbles {
        match *self {
            AccountsTreeNode::BranchNode { prefix, children } => prefix,
            AccountsTreeNode::TerminalNode { prefix, account } => prefix,
        }
    }

    /// A terminal node.
    pub fn new_terminal(prefix: AddressNibbles, account: Account) -> (r: AccountsTreeNode)
        ensures
            r == (AccountsTreeNode::TerminalNode { prefix, account }),
    {
        AccountsTreeNode::TerminalNode { prefix, account }
    }

    /// A branch node.
    pub fn new_branch(prefix: AddressNibbles, children: [Option<AccountsTreeNodeChild>; 16]) -> (r:
        AccountsTreeNode)
        ensures
            r == (AccountsTreeNode::BranchNode { prefix, children }),
    {
        AccountsTreeNode::BranchNode { prefix, children }
    }

    /// Whether the node is a branch.
    pub fn is_branch(&self) -> (b: bool)
        ensures
            b == (*self is BranchNode),
    {
        match self {
            AccountsTreeNode::BranchNode { .. } => true,
            AccountsTreeNode::TerminalNode { .. } => false,
        }
    }

    /// Whether the node is a terminal.
    pub fn is_terminal(&self) -> (b: bool)
        ensures
            b == (*self is TerminalNode),
    {
        !self.is_branch()
    }

    /// The prefix of the node.
    pub fn prefix(&self) -> (p: &AddressNibbles)
        ensures
            *p == self.spec_prefix(),
    {
        match self {
            AccountsTreeNode::BranchNode { prefix, .. } => prefix,
            AccountsTreeNode::TerminalNode { prefix, .. } => prefix,
        }
    }

    /// The child that the node names for a key.
    pub fn get_child(&self, key: &AddressNibbles) -> (r: Option<AccountsTreeNodeChild>)
        requires
            self.wf(),
            key.wf(),
        ensures
            r == child_for(*self, key@),
    {
        match self {
            AccountsTreeNode::TerminalNode { .. } => None,
            AccountsTreeNode::BranchNode { prefix, children } => match key.get(prefix.len()) {
                None => None,
                Some(index) => {
                    assert(key@[prefix.len as int] < 16);
                    children[index]
                },
            },
        }
    }

    /// The hash that the node names for the child with a key.
    pub fn get_child_hash(&self, key: &AddressNibbles) -> (r: Option<Blake2bHash>)
        requires
            self.wf(),
            key.wf(),
        ensures
            r == match child_for(*self, key@) {
                Some(child) => Some(child.hash),
                None => None,
            },
    {
        match self.get_child(key) {
            Some(child) => Some(child.hash),
            None => None,
        }
    }

    /// The prefix that the node names for the child with a key: its own
    /// prefix followed by the suffix of the child.
    pub fn get_child_prefix(&self, key: &AddressNibbles) -> (r: Option<AddressNibbles>)
        requires
            self.wf(),
            key.wf(),
        ensures
            r is Some == child_for(*self, key@) is Some,
            r is Some ==> r->0.wf() && r->0@ == if self.spec_prefix()@.len() + child_for(
                *self,
                key@,
            )->0.suffix@.len() <= 40 {
                self.spec_prefix()@ + child_for(*self, key@)->0.suffix@
            } else {
                (self.spec_prefix()@ + child_for(*self, key@)->0.suffix@).subrange(0, 40)
            },
    {
        match self.get_child(key) {
            Some(child) => {
                proof {
                    match *self {
                        AccountsTreeNode::BranchNode { prefix, children } => {
                            assert(children@[key@[prefix@.len() as int] as int] is Some);
                        },
                        _ => {},
                    }
                }
                Some(self.prefix().concat(&child.suffix))
            },
            None => None,
        }
    }

    /// The bytes of the node.
    pub fn serialize(&self) -> (out: Vec<u8>)
        requires
            self.wf(),
        ensures
            out@ == node_bytes(*self),
    {
        let mut out: Vec<u8> = Vec::new();
        match self {
            AccountsTreeNode::TerminalNode { prefix, account } => {
                out.push(255);
                put_nibbles(&mut out, prefix);
                account.serialize(&mut out);
                assert(out@ =~= node_bytes(*self));
            },
            AccountsTreeNode::BranchNode { prefix, children } => {
                out.push(0);
                put_nibbles(&mut out, prefix);
                let ghost head = out@;
                let mut i: usize = 0;
                while i < 16
                    invariant
                        i <= 16,
                        self.wf(),
                        *self == (AccountsTreeNode::BranchNode {
                            prefix: *prefix,
                            children: *children,
                        }),
                        out@ == head + children_bytes(children@, i as int),
                    decreases 16 - i,
                {
                    match &children[i] {
                        None => {
                            out.push(0);
                        },
                        Some(child) => {
                            assert(children@[i as int] is Some);
                            out.push(1);
                            put_nibbles(&mut out, &child.suffix);
                            put_bytes(&mut out, child.hash.bytes.as_slice());
                        },
                    }
                    assert(out@ =~= head + children_bytes(children@, i + 1));
                    i += 1;
                }
                assert(out@ =~= node_bytes(*self));
            },
        }
        out
    }

    /// The hash of the node.
    pub fn hash(&self) -> (h: Blake2bHash)
        requires
            self.wf(),
        ensures
            h@ == node_hash(*self),
    {
        let bytes = self.serialize();
        Blake2bHash::digest(bytes.as_slice())
    }
}

} // verus!
