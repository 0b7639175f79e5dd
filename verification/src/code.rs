//! The code table: each symbol of a code tree with the bits that lead to its
//! leaf.

use crate::bits::{clone_bits, empty_bits, max_bits, pop_bit, push_bit, Bits};
use crate::frequency::plain_symbols;
use crate::tree::HuffmanTreeNode;
use std::collections::HashMap;
use std::hash::Hash;
use vstd::prelude::*;

verus! {

/// A code table: a map from symbol to code.
pub struct HuffmanCode<T: Hash + Eq> {
    pub table: HashMap<T, Bits>,
}

impl<T: Hash + Eq> View for HuffmanCode<T> {
    type V = Map<T, Seq<bool>>;

    open spec fn view(&self) -> Map<T, Seq<bool>> {
        Map::new(|symbol: T| self.table@.contains_key(symbol), |symbol: T| self.table@[symbol]@)
    }
}

/// The codes of `tree`, each behind the bits of `trace`.
pub open spec fn codes_below<T>(tree: HuffmanTreeNode<T>, trace: Seq<bool>) -> Map<T, Seq<bool>> {
    Map::new(
        |symbol: T| tree.code(symbol) is Some,
        |symbol: T| trace + tree.code(symbol).unwrap(),
    )
}

/// No code of `table` begins another.
pub open spec fn prefix_free<T>(table: Map<T, Seq<bool>>) -> bool {
    forall|a: T, b: T|
        table.contains_key(a) && table.contains_key(b) && a != b ==> !(#[trigger] table[a])
            .is_prefix_of(#[trigger] table[b])
}

/// The code table of any tree is prefix-free.
pub proof fn lemma_code_table_prefix_free<T>(tree: HuffmanTreeNode<T>)
    ensures
        prefix_free(tree.code_table()),
{
    let table = tree.code_table();
    assert forall|a: T, b: T|
        table.contains_key(a) && table.contains_key(b) && a != b implies !(#[trigger] table[a])
        .is_prefix_of(#[trigger] table[b]) by {
        tree.lemma_prefix_free(a, b);
    }
}

impl<T: Copy + Hash + Eq> HuffmanCode<T> {
    /// Derives the code table of a tree by walking it depth first, left before
    /// right.
    pub fn new(tree: HuffmanTreeNode<T>) -> (code: Self)
        requires
            plain_symbols::<T>(),
            tree.symbols().no_duplicates(),
            tree.depth() <= max_bits(),
        ensures
            code@ == tree.code_table(),
            code@.dom() == tree.symbols().to_set(),
            prefix_free(code@),
    {
        proof {
            lemma_code_table_prefix_free(tree);
            assert(tree.code_table().dom() =~= tree.symbols().to_set()) by {
                assert forall|symbol: T|
                    tree.code_table().dom().contains(symbol) <==> tree.symbols().to_set().contains(
                        symbol,
                    ) by {
                    tree.lemma_code(symbol);
                }
            }
        }
        let mut retval = Self { table: HashMap::new() };
        let mut trace = empty_bits();
        assert(retval@ =~= Map::<T, Seq<bool>>::empty());
        HuffmanCode::recurse(&mut retval, &tree, &mut trace);
        assert(retval@ =~= tree.code_table()) by {
            assert forall|symbol: T| tree.code(symbol) is Some implies (Seq::<bool>::empty()
                + tree.code(symbol).unwrap()) == tree.code(symbol).unwrap() by {
                assert(Seq::<bool>::empty() + tree.code(symbol).unwrap() =~= tree.code(
                    symbol,
                ).unwrap());
            }
        }
        retval
    }

    /// Adds to `code` the codes of the leaves of `tree`, each behind the bits that
    /// `trace` holds on entry, and leaves `trace` as it was.
    pub(crate) fn recurse(code: &mut Self, tree: &HuffmanTreeNode<T>, trace: &mut Bits)
        requires
            plain_symbols::<T>(),
            tree.symbols().no_duplicates(),
            old(trace)@.len() + tree.depth() <= max_bits(),
            forall|symbol: T|
                tree.symbols().contains(symbol) ==> !old(code)@.contains_key(symbol),
        ensures
            final(trace)@ == old(trace)@,
            final(code)@ == old(code)@.union_prefer_right(codes_below(*tree, old(trace)@)),
        decreases tree,
    {
        let ghost code0 = code@;
        let ghost trace0 = trace@;
        let ghost node = *tree;
        match tree.char {
            None => {
                let ghost ls = match node.left {
                    Some(l) => l.symbols(),
                    None => Seq::empty(),
                };
                let ghost rs = match node.right {
                    Some(r) => r.symbols(),
                    None => Seq::empty(),
                };
                proof {
                    HuffmanTreeNode::lemma_concat_no_duplicates(ls, rs);
                    assert forall|symbol: T|
                        ls.contains(symbol) || rs.contains(symbol) implies tree.symbols().contains(
                        symbol,
                    ) by {
                        HuffmanTreeNode::lemma_concat_contains(ls, rs, symbol);
                    }
                }
                if let Some(left) = &tree.left {
                    push_bit(trace, false);
                    Self::recurse(code, left, trace);
                    let _ = pop_bit(trace);
                    assert(trace@ =~= trace0);
                }
                let ghost code1 = code@;
                proof {
                    assert forall|symbol: T| rs.contains(symbol) implies !code1.contains_key(
                        symbol,
                    ) by {
                        match node.left {
                            Some(l) => {
                                l.lemma_code(symbol);
                            },
                            None => {},
                        }
                    }
                }
                if let Some(right) = &tree.right {
                    push_bit(trace, true);
                    Self::recurse(code, right, trace);
                    let _ = pop_bit(trace);
                    assert(trace@ =~= trace0);
                }
                proof {
                    let expected = code0.union_prefer_right(codes_below(*tree, trace0));
                    assert forall|symbol: T| #[trigger]
                        expected.contains_key(symbol) <==> code@.contains_key(symbol) by {}
                    assert forall|symbol: T| #[trigger]
                        code@.contains_key(symbol) implies code@[symbol] == expected[symbol] by {
                        match node.left {
                            Some(l) => {
                                l.lemma_code(symbol);
                                if l.code(symbol) is Some {
                                    let path = l.code(symbol).unwrap();
                                    assert(trace0.push(false) + path =~= trace0 + (seq![false]
                                        + path));
                                }
                            },
                            None => {},
                        }
                        match node.right {
                            Some(r) => {
                                r.lemma_code(symbol);
                                if r.code(symbol) is Some {
                                    let path = r.code(symbol).unwrap();
                                    assert(trace0.push(true) + path =~= trace0 + (seq![true]
                                        + path));
                                }
                            },
                            None => {},
                        }
                    }
                    assert(code@ =~= expected);
                }
            },
            Some(c) => {
                proof {
                    assert(tree.symbols()[0] == c);
                    assert(tree.symbols().contains(c));
                    reveal(vstd::laws_eq::obeys_concrete_eq);
                }
                let word = clone_bits(trace);
                let prev = code.table.insert(c, word);
                assert(prev is None);
                proof {
                    let expected = code0.union_prefer_right(codes_below(*tree, trace0));
                    assert(trace0 + Seq::<bool>::empty() =~= trace0);
                    assert(code@ =~= expected);
                }
            },
        }
    }
}

} // verus!
