use chain_engine::account::{Account, BasicAccount};
use chain_engine::accounts_proof::AccountsProof;
use chain_engine::accounts_tree_node::{AccountsTreeNode, AccountsTreeNodeChild};
use chain_engine::address::Address;
use chain_engine::nibbles::AddressNibbles;

fn nibbles(text: &str) -> AddressNibbles {
    AddressNibbles::parse(text).unwrap()
}

fn address_of(digits: &AddressNibbles) -> Address {
    let text = String::from_utf8(digits.to_bytes()).unwrap();
    Address::from_slice(hex::decode(text).unwrap().as_slice())
}

fn child(suffix: &str, node: &AccountsTreeNode) -> Option<AccountsTreeNodeChild> {
    Some(AccountsTreeNodeChild { suffix: nibbles(suffix), hash: node.hash() })
}

struct Tree {
    t1: AccountsTreeNode,
    t2: AccountsTreeNode,
    t3: AccountsTreeNode,
    t4: AccountsTreeNode,
    b1: AccountsTreeNode,
    b2: AccountsTreeNode,
    r1: AccountsTreeNode,
}

/*
 * The tree of the tests:
 *
 *      R1
 *      |
 *      B1
 *    / |  \
 *   T1 B2 T2
 *     / \
 *    T3 T4
 */
fn tree() -> Tree {
    let t1 = AccountsTreeNode::new_terminal(
        nibbles("0011111111111111111111111111111111111111"),
        Account::Basic(BasicAccount { balance: 25 }),
    );
    let t2 = AccountsTreeNode::new_terminal(
        nibbles("0033333333333333333333333333333333333333"),
        Account::Basic(BasicAccount { balance: 1 }),
    );
    let t3 = AccountsTreeNode::new_terminal(
        nibbles("0020000000000000000000000000000000000000"),
        Account::Basic(BasicAccount { balance: 1322 }),
    );
    let t4 = AccountsTreeNode::new_terminal(
        nibbles("0022222222222222222222222222222222222222"),
        Account::Basic(BasicAccount { balance: 93 }),
    );
    let b2 = AccountsTreeNode::new_branch(
        nibbles("002"),
        [
            child("0000000000000000000000000000000000000", &t3),
            None,
            child("2222222222222222222222222222222222222", &t4),
            None, None, None, None, None, None, None, None, None, None, None, None, None,
        ],
    );
    let b1 = AccountsTreeNode::new_branch(
        nibbles("00"),
        [
            None,
            child("11111111111111111111111111111111111111", &t1),
            child("2", &b2),
            child("33333333333333333333333333333333333333", &t2),
            None, None, None, None, None, None, None, None, None, None, None, None,
        ],
    );
    let r1 = AccountsTreeNode::new_branch(
        nibbles(""),
        [
            child("00", &b1),
            None, None, None, None, None, None, None, None, None, None, None, None, None, None, None,
        ],
    );
    Tree { t1, t2, t3, t4, b1, b2, r1 }
}

#[test]
fn it_can_verify() {
    let an1 = nibbles("0011111111111111111111111111111111111111");
    let account1 = Account::Basic(BasicAccount { balance: 25 });
    let address1 = address_of(&an1);

    let an2 = nibbles("0033333333333333333333333333333333333333");
    let account2 = Account::Basic(BasicAccount { balance: 1 });
    let address2 = address_of(&an2);

    let an3 = nibbles("0020000000000000000000000000000000000000");
    let account3 = Account::Basic(BasicAccount { balance: 1322 });
    let address3 = address_of(&an3);

    let an4 = nibbles("0022222222222222222222222222222222222222");
    let account4 = Account::Basic(BasicAccount { balance: 93 });
    let address4 = address_of(&an4);

    let Tree { t1, t2, t3, t4, b1, b2, r1 } = tree();

    // The first proof proves the 4 terminal nodes (T1, T2, T3 and T4)
    let mut proof1 = AccountsProof::new(vec![t1, t3, t4, b2, t2, b1, r1]);
    assert!(proof1.verify());
    assert_eq!(account1, proof1.get_account(&address1).unwrap());
    assert_eq!(account2, proof1.get_account(&address2).unwrap());
    assert_eq!(account3, proof1.get_account(&address3).unwrap());
    assert_eq!(account4, proof1.get_account(&address4).unwrap());

    // The second proof proves the 2 leftmost terminal nodes (T1 and T3)
    let mut proof2 = AccountsProof::new(vec![t1, t3, b2, b1, r1]);
    assert!(proof2.verify());
    assert_eq!(account1, proof2.get_account(&address1).unwrap());
    assert_eq!(account3, proof2.get_account(&address3).unwrap());
    assert_eq!(None, proof2.get_account(&address2));
    assert_eq!(None, proof2.get_account(&address4));

    // The third proof just proves T4
    let mut proof3 = AccountsProof::new(vec![t4, b2, b1, r1]);
    assert!(proof3.verify());
    assert_eq!(account4, proof3.get_account(&address4).unwrap());
    assert_eq!(None, proof3.get_account(&address1));
    assert_eq!(None, proof3.get_account(&address2));
    assert_eq!(None, proof3.get_account(&address3));

    // must return the correct root hash
    assert!(proof1.root_hash() == r1.hash());
    assert!(proof2.root_hash() == r1.hash());
    assert!(proof3.root_hash() == r1.hash());
}

#[test]
fn a_proof_without_its_root_fails() {
    let Tree { t1, t3, b1, b2, .. } = tree();
    let mut proof = AccountsProof::new(vec![t1, t3, b2, b1]);
    assert!(!proof.verify());
}

#[test]
fn a_proof_out_of_order_fails() {
    let Tree { t1, t3, b1, b2, r1, .. } = tree();
    let mut proof = AccountsProof::new(vec![t1, b2, t3, b1, r1]);
    assert!(!proof.verify());
}

#[test]
fn a_proof_with_a_wrong_hash_fails() {
    let Tree { t3, b1, b2, r1, .. } = tree();
    let forged = AccountsTreeNode::new_terminal(
        nibbles("0011111111111111111111111111111111111111"),
        Account::Basic(BasicAccount { balance: 26 }),
    );
    let mut proof = AccountsProof::new(vec![forged, t3, b2, b1, r1]);
    assert!(!proof.verify());
}

#[test]
fn a_proof_with_a_missing_branch_fails() {
    let Tree { t3, b1, r1, .. } = tree();
    let mut proof = AccountsProof::new(vec![t3, b1, r1]);
    assert!(!proof.verify());
}

#[test]
fn an_empty_proof_fails() {
    let mut proof = AccountsProof::new(Vec::new());
    assert!(!proof.verify());
}

#[test]
fn nibbles_read_and_compare() {
    let short = nibbles("00");
    let long = nibbles("002a");
    assert!(short.is_prefix_of(&long));
    assert!(!long.is_prefix_of(&short));
    assert_eq!(long.get(3), Some(10));
    assert_eq!(long.get(4), None);
    assert_eq!(short.concat(&nibbles("2a")), long);
    assert_eq!(long.to_bytes(), b"002a".to_vec());
    assert!(AddressNibbles::parse("0g").is_none());
    assert!(AddressNibbles::parse("00000000000000000000000000000000000000000").is_none());
    let address = Address::from_slice(&hex::decode("e9910f2452419823dc2e5534633210074ae9527f").unwrap());
    assert_eq!(
        AddressNibbles::from_address(&address),
        nibbles("e9910f2452419823dc2e5534633210074ae9527f")
    );
}
