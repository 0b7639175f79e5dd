//! The code tree: a binary tree whose leaves are the symbols of a frequency
//! table, built by merging neighbours pairwise, level by level.

use crate::frequency::{symbols_of, CharFrequencies};
use std::collections::VecDeque;
use std::hash::Hash;
use vstd::arithmetic::power2::{lemma2_to64, lemma2_to64_rest, lemma_pow2_unfold, pow2};
use vstd::prelude::*;

verus! {

/// A node of a code tree. A node with a symbol is a leaf; a node without one is
/// internal and is left through `left` on a 0 bit and through `right` on a 1 bit.
#[derive(Debug)]
pub struct HuffmanTreeNode<T> {
    pub char: Option<T>,
    pub left: Option<Box<HuffmanTreeNode<T>>>,
    pub right: Option<Box<HuffmanTreeNode<T>>>,
}

impl<T> HuffmanTreeNode<T> {
    /// The leaf that carries `symbol`.
    pub open spec fn leaf(symbol: T) -> Self {
        HuffmanTreeNode { char: Some(symbol), left: None, right: None }
    }

    /// The internal node over two subtrees.
    pub open spec fn join(left: Self, right: Self) -> Self {
        HuffmanTreeNode { char: None, left: Some(Box::new(left)), right: Some(Box::new(right)) }
    }

    /// The internal node with a left subtree only.
    pub open spec fn lone(left: Self) -> Self {
        HuffmanTreeNode { char: None, left: Some(Box::new(left)), right: None }
    }

    /// One leaf per symbol, in order.
    pub open spec fn leaves(symbols: Seq<T>) -> Seq<Self> {
        Seq::new(symbols.len(), |i: int| Self::leaf(symbols[i]))
    }

    /// One merging pass: neighbours joined two by two from the front, an odd last
    /// node carried over as it is.
    pub open spec fn pair_up(level: Seq<Self>) -> Seq<Self>
        decreases level.len(),
    {
        if level.len() == 0 {
            Seq::empty()
        } else if level.len() == 1 {
            level
        } else {
            seq![Self::join(level[0], level[1])] + Self::pair_up(level.skip(2))
        }
    }

    /// Merging passes repeated until one node is left.
    pub open spec fn merge_all(level: Seq<Self>) -> Self
        decreases level.len(),
    {
        if level.len() <= 1 {
            level[0]
        } else {
            proof {
                Self::lemma_pair_up_len(level);
            }
            Self::merge_all(Self::pair_up(level))
        }
    }

    /// The code tree of a sequence of symbols: the leaves merged into one node,
    /// and a lone leaf put under an internal node as its left child.
    pub open spec fn code_tree(symbols: Seq<T>) -> Self {
        let top = Self::merge_all(Self::leaves(symbols));
        if top.char is Some {
            Self::lone(top)
        } else {
            top
        }
    }

    /// The symbols at the leaves, from left to right.
    pub open spec fn symbols(self) -> Seq<T>
        decreases self,
    {
        match self.char {
            Some(c) => seq![c],
            None => (match self.left {
                Some(l) => l.symbols(),
                None => Seq::empty(),
            }) + (match self.right {
                Some(r) => r.symbols(),
                None => Seq::empty(),
            }),
        }
    }

    /// An upper bound on the number of steps from this node down to any node
    /// below it: 0 for a leaf.
    pub open spec fn depth(self) -> nat
        decreases self,
    {
        match self.char {
            Some(_) => 0,
            None => {
                let l = match self.left {
                    Some(l) => l.depth(),
                    None => 0,
                };
                let r = match self.right {
                    Some(r) => r.depth(),
                    None => 0,
                };
                if l >= r {
                    l + 1
                } else {
                    r + 1
                }
            },
        }
    }

    /// Every leaf is bare and every internal node has both children.
    pub open spec fn is_full(self) -> bool
        decreases self,
    {
        match self.char {
            Some(_) => self.left is None && self.right is None,
            None => (match self.left {
                Some(l) => l.is_full(),
                None => false,
            }) && (match self.right {
                Some(r) => r.is_full(),
                None => false,
            }),
        }
    }

    /// The shape of a code tree: the root is internal, and either the tree is
    /// full or it is one leaf under the root's left side.
    pub open spec fn well_formed(self) -> bool {
        &&& self.char is None
        &&& self.is_full() || (exists|symbol: T| self == Self::lone(Self::leaf(symbol)))
    }

    /// The bits that lead from this node to the first leaf, from the left, that
    /// carries `symbol`: `false` for a step to the left, `true` for one to the
    /// right. `None` where no leaf carries it.
    pub open spec fn code(self, symbol: T) -> Option<Seq<bool>>
        decreases self,
    {
        match self.char {
            Some(c) => if c == symbol {
                Some(Seq::empty())
            } else {
                None
            },
            None => {
                let l = match self.left {
                    Some(l) => l.code(symbol),
                    None => None,
                };
                let r = match self.right {
                    Some(r) => r.code(symbol),
                    None => None,
                };
                match l {
                    Some(path) => Some(seq![false] + path),
                    None => match r {
                        Some(path) => Some(seq![true] + path),
                        None => None,
                    },
                }
            },
        }
    }

    /// The code table of this tree: each symbol at a leaf with its code.
    pub open spec fn code_table(self) -> Map<T, Seq<bool>> {
        Map::new(|symbol: T| self.code(symbol) is Some, |symbol: T| self.code(symbol).unwrap())
    }

    /// The symbols at the leaves of a sequence of trees, from left to right.
    pub open spec fn flatten(level: Seq<Self>) -> Seq<T>
        decreases level.len(),
    {
        if level.len() == 0 {
            Seq::empty()
        } else {
            level[0].symbols() + Self::flatten(level.skip(1))
        }
    }

    /// The number of merging passes that bring `n` nodes down to one.
    pub open spec fn passes(n: nat) -> nat
        decreases n,
    {
        if n <= 1 {
            0
        } else {
            1 + Self::passes((n + 1) / 2)
        }
    }
}

impl<T: Copy + Hash + Eq> HuffmanTreeNode<T> {
    /// Builds the code tree of a frequency table: one leaf per entry in table
    /// order, merged pairwise pass by pass until one node is left.
    pub fn new(freq: &CharFrequencies<T>) -> (tree: Self)
        requires
            freq@.len() > 0,
        ensures
            tree == Self::code_tree(symbols_of(freq@)),
            tree.well_formed(),
            tree.symbols() == symbols_of(freq@),
            1 <= tree.depth() <= 64,
    {
        let ghost symbols = symbols_of(freq@);
        proof {
            Self::lemma_code_tree(symbols);
        }
        let mut to_process: VecDeque<HuffmanTreeNode<T>> = VecDeque::new();
        let mut i: usize = 0;
        while i < freq.freq.len()
            invariant
                i <= freq.freq.len(),
                symbols == symbols_of(freq@),
                to_process@ == Self::leaves(symbols).take(i as int),
            decreases freq.freq.len() - i,
        {
            let symbol = freq.freq[i].0;
            to_process.push_back(HuffmanTreeNode { char: Some(symbol), left: None, right: None });
            i += 1;
            assert(to_process@ =~= Self::leaves(symbols).take(i as int));
        }
        assert(to_process@ =~= Self::leaves(symbols));
        let mut processed: VecDeque<HuffmanTreeNode<T>> = VecDeque::new();
        while to_process.len() > 1
            invariant
                to_process@.len() >= 1,
                processed@.len() == 0,
                Self::merge_all(to_process@) == Self::merge_all(Self::leaves(symbols)),
            decreases to_process@.len(),
        {
            let ghost level = to_process@;
            while to_process.len() > 0
                invariant
                    Self::pair_up(level) == processed@ + Self::pair_up(to_process@),
                decreases to_process@.len(),
            {
                let ghost rest = to_process@;
                if to_process.len() == 1 {
                    let node = to_process.pop_front().unwrap();
                    processed.push_back(node);
                    assert(to_process@ =~= Seq::<Self>::empty());
                } else {
                    let node1 = to_process.pop_front().unwrap();
                    let node2 = to_process.pop_front().unwrap();
                    let new_node = HuffmanTreeNode {
                        char: None,
                        left: Some(Box::new(node1)),
                        right: Some(Box::new(node2)),
                    };
                    processed.push_back(new_node);
                    assert(to_process@ =~= rest.skip(2));
                }
                assert(Self::pair_up(level) =~= processed@ + Self::pair_up(to_process@));
            }
            proof {
                Self::lemma_pair_up_len(level);
                assert(Self::pair_up(to_process@) =~= Seq::<Self>::empty());
                assert(processed@ =~= Self::pair_up(level));
            }
            to_process = processed;
            processed = VecDeque::new();
        }
        let val = to_process.pop_front().unwrap();
        match val.char {
            None => val,
            Some(_) => HuffmanTreeNode { char: None, left: Some(Box::new(val)), right: None },
        }
    }
}

impl<T> HuffmanTreeNode<T> {
    /// A merging pass over `n` nodes leaves half of them, rounded up.
    pub proof fn lemma_pair_up_len(level: Seq<Self>)
        ensures
            Self::pair_up(level).len() == (level.len() + 1) / 2,
        decreases level.len(),
    {
        if level.len() >= 2 {
            Self::lemma_pair_up_len(level.skip(2));
        }
    }

    /// What a merging pass puts at each place.
    pub proof fn lemma_pair_up_index(level: Seq<Self>, i: int)
        requires
            0 <= i < (level.len() + 1) / 2,
        ensures
            Self::pair_up(level).len() == (level.len() + 1) / 2,
            2 * i + 1 < level.len() ==> Self::pair_up(level)[i] == Self::join(
                level[2 * i],
                level[2 * i + 1],
            ),
            2 * i + 1 >= level.len() ==> Self::pair_up(level)[i] == level[2 * i],
        decreases level.len(),
    {
        Self::lemma_pair_up_len(level);
        if level.len() >= 2 && i > 0 {
            Self::lemma_pair_up_len(level.skip(2));
            Self::lemma_pair_up_index(level.skip(2), i - 1);
        }
    }

    /// A merging pass keeps the leaves and their order.
    pub proof fn lemma_pair_up_flatten(level: Seq<Self>)
        ensures
            Self::flatten(Self::pair_up(level)) == Self::flatten(level),
        decreases level.len(),
    {
        if level.len() >= 2 {
            let rest = level.skip(2);
            Self::lemma_pair_up_flatten(rest);
            let merged = Self::pair_up(level);
            assert(merged.skip(1) =~= Self::pair_up(rest));
            assert(level.skip(1).skip(1) =~= rest);
            assert(level.skip(1)[0] == level[1]);
            assert(Self::flatten(level.skip(1)) == level[1].symbols() + Self::flatten(rest));
            assert(Self::flatten(merged) =~= Self::flatten(level));
        }
    }

    /// The leaves made of a sequence of symbols carry those symbols.
    pub proof fn lemma_leaves_flatten(symbols: Seq<T>)
        ensures
            Self::flatten(Self::leaves(symbols)) == symbols,
        decreases symbols.len(),
    {
        if symbols.len() > 0 {
            Self::lemma_leaves_flatten(symbols.skip(1));
            assert(Self::leaves(symbols).skip(1) =~= Self::leaves(symbols.skip(1)));
            assert(Self::flatten(Self::leaves(symbols)) =~= symbols);
        } else {
            assert(Self::flatten(Self::leaves(symbols)) =~= symbols);
        }
    }

    /// Merging keeps the leaves and their order.
    pub proof fn lemma_merge_all_symbols(level: Seq<Self>)
        requires
            level.len() >= 1,
        ensures
            Self::merge_all(level).symbols() == Self::flatten(level),
        decreases level.len(),
    {
        if level.len() == 1 {
            assert(Self::flatten(level.skip(1)) =~= Seq::<T>::empty());
            assert(Self::flatten(level) =~= level[0].symbols());
        } else {
            Self::lemma_pair_up_len(level);
            Self::lemma_pair_up_flatten(level);
            Self::lemma_merge_all_symbols(Self::pair_up(level));
        }
    }

    /// Merging full trees gives a full tree, deeper by at most one step for each
    /// pass.
    pub proof fn lemma_merge_all_shape(level: Seq<Self>, d: nat)
        requires
            level.len() >= 1,
            forall|i: int| 0 <= i < level.len() ==> (#[trigger] level[i]).is_full(),
            forall|i: int| 0 <= i < level.len() ==> (#[trigger] level[i]).depth() <= d,
        ensures
            Self::merge_all(level).is_full(),
            Self::merge_all(level).depth() <= d + Self::passes(level.len()),
            level.len() >= 2 ==> Self::merge_all(level).char is None,
            level.len() == 1 ==> Self::merge_all(level) == level[0],
        decreases level.len(),
    {
        if level.len() >= 2 {
            let next = Self::pair_up(level);
            Self::lemma_pair_up_len(level);
            assert forall|i: int| 0 <= i < next.len() implies (#[trigger] next[i]).is_full()
                && next[i].depth() <= d + 1 && (level.len() <= 3 && i == 0 ==> next[i].char
                is None) by {
                Self::lemma_pair_up_index(level, i);
                if 2 * i + 1 < level.len() {
                    assert(level[2 * i].is_full());
                    assert(level[2 * i + 1].is_full());
                } else {
                    assert(level[2 * i].is_full());
                }
            }
            Self::lemma_merge_all_shape(next, d + 1);
            if next.len() >= 2 {
            } else {
                assert(next[0].char is None);
            }
        }
    }

    /// A symbol has a code exactly when a leaf carries it; the code is no longer
    /// than the tree is deep, and below an internal node it is not empty.
    pub proof fn lemma_code(self, symbol: T)
        ensures
            self.code(symbol) is Some <==> self.symbols().contains(symbol),
            self.code(symbol) is Some ==> self.code(symbol).unwrap().len() <= self.depth(),
            self.code(symbol) is Some && self.char is None ==> self.code(symbol).unwrap().len()
                >= 1,
        decreases self,
    {
        match self.char {
            Some(c) => {
                assert(seq![c][0] == c);
            },
            None => {
                let ls = match self.left {
                    Some(l) => l.symbols(),
                    None => Seq::empty(),
                };
                let rs = match self.right {
                    Some(r) => r.symbols(),
                    None => Seq::empty(),
                };
                match self.left {
                    Some(l) => {
                        l.lemma_code(symbol);
                    },
                    None => {},
                }
                match self.right {
                    Some(r) => {
                        r.lemma_code(symbol);
                    },
                    None => {},
                }
                Self::lemma_concat_contains(ls, rs, symbol);
            },
        }
    }

    /// A symbol is in a concatenation exactly when it is in one of the parts.
    pub proof fn lemma_concat_contains(a: Seq<T>, b: Seq<T>, symbol: T)
        ensures
            (a + b).contains(symbol) <==> a.contains(symbol) || b.contains(symbol),
    {
        if a.contains(symbol) {
            let i = choose|i: int| 0 <= i < a.len() && a[i] == symbol;
            assert((a + b)[i] == symbol);
        }
        if b.contains(symbol) {
            let i = choose|i: int| 0 <= i < b.len() && b[i] == symbol;
            assert((a + b)[a.len() + i] == symbol);
        }
        if (a + b).contains(symbol) {
            let i = choose|i: int| 0 <= i < (a + b).len() && (a + b)[i] == symbol;
            if i < a.len() {
                assert(a[i] == symbol);
            } else {
                assert(b[i - a.len()] == symbol);
            }
        }
    }

    /// The parts of a concatenation without duplicates have none, and share no
    /// symbol.
    pub proof fn lemma_concat_no_duplicates(a: Seq<T>, b: Seq<T>)
        requires
            (a + b).no_duplicates(),
        ensures
            a.no_duplicates(),
            b.no_duplicates(),
            forall|symbol: T| !(a.contains(symbol) && b.contains(symbol)),
    {
        let c = a + b;
        assert forall|i: int, j: int| 0 <= i < a.len() && 0 <= j < a.len() && i != j implies a[i]
            != a[j] by {
            assert(c[i] == a[i] && c[j] == a[j]);
        }
        assert forall|i: int, j: int| 0 <= i < b.len() && 0 <= j < b.len() && i != j implies b[i]
            != b[j] by {
            assert(c[a.len() + i] == b[i] && c[a.len() + j] == b[j]);
        }
        assert forall|symbol: T| !(a.contains(symbol) && b.contains(symbol)) by {
            if a.contains(symbol) && b.contains(symbol) {
                let i = choose|i: int| 0 <= i < a.len() && a[i] == symbol;
                let j = choose|j: int| 0 <= j < b.len() && b[j] == symbol;
                assert(c[i] == symbol && c[a.len() + j] == symbol);
            }
        }
    }

    /// The codes of a tree are prefix-free: the code of one symbol never begins
    /// the code of another.
    pub proof fn lemma_prefix_free(self, a: T, b: T)
        requires
            a != b,
            self.code(a) is Some,
            self.code(b) is Some,
        ensures
            !self.code(a).unwrap().is_prefix_of(self.code(b).unwrap()),
        decreases self,
    {
        match self.char {
            Some(_) => {},
            None => {
                let la = match self.left {
                    Some(l) => l.code(a),
                    None => None,
                };
                let lb = match self.left {
                    Some(l) => l.code(b),
                    None => None,
                };
                let ca = self.code(a).unwrap();
                let cb = self.code(b).unwrap();
                if la is Some && lb is Some {
                    let l = self.left.unwrap();
                    l.lemma_prefix_free(a, b);
                    let pa = la.unwrap();
                    let pb = lb.unwrap();
                    if ca.is_prefix_of(cb) {
                        assert forall|i: int| 0 <= i < pa.len() implies pa[i] == pb[i] by {
                            assert(ca[i + 1] == pa[i]);
                            assert(cb[i + 1] == pb[i]);
                            assert(cb.subrange(0, ca.len() as int)[i + 1] == cb[i + 1]);
                        }
                        assert(pa =~= pb.subrange(0, pa.len() as int));
                    }
                } else if la is None && lb is None {
                    let r = self.right.unwrap();
                    r.lemma_prefix_free(a, b);
                    let pa = r.code(a).unwrap();
                    let pb = r.code(b).unwrap();
                    if ca.is_prefix_of(cb) {
                        assert forall|i: int| 0 <= i < pa.len() implies pa[i] == pb[i] by {
                            assert(ca[i + 1] == pa[i]);
                            assert(cb[i + 1] == pb[i]);
                            assert(cb.subrange(0, ca.len() as int)[i + 1] == cb[i + 1]);
                        }
                        assert(pa =~= pb.subrange(0, pa.len() as int));
                    }
                } else {
                    if ca.is_prefix_of(cb) {
                        assert(cb.subrange(0, ca.len() as int)[0] == cb[0]);
                        assert(ca[0] != cb[0]);
                    }
                }
            },
        }
    }

    /// The code tree of one symbol is a root over one leaf on its left; the tree
    /// is one step deep and the symbol's code is the single bit 0.
    pub proof fn lemma_single_symbol(symbol: T)
        ensures
            Self::code_tree(seq![symbol]) == Self::lone(Self::leaf(symbol)),
            Self::code_tree(seq![symbol]).depth() == 1,
            Self::code_tree(seq![symbol]).code(symbol) == Some(seq![false]),
    {
        Self::lemma_code_tree(seq![symbol]);
        let tree = Self::lone(Self::leaf(symbol));
        assert(Self::leaf(symbol).code(symbol) == Some(Seq::<bool>::empty()));
        assert(Self::leaf(symbol).depth() == 0);
        assert(tree.left == Some(Box::new(Self::leaf(symbol))));
        assert(seq![false] + Seq::<bool>::empty() =~= seq![false]);
    }

    /// The codes of the code tree of any symbols are prefix-free: the code of one
    /// symbol never begins the code of another.
    pub proof fn lemma_codes_prefix_free(symbols: Seq<T>, a: T, b: T)
        requires
            symbols.len() >= 1,
            symbols.contains(a),
            symbols.contains(b),
            a != b,
        ensures
            Self::code_tree(symbols).code(a) is Some,
            Self::code_tree(symbols).code(b) is Some,
            !Self::code_tree(symbols).code(a).unwrap().is_prefix_of(
                Self::code_tree(symbols).code(b).unwrap(),
            ),
    {
        let tree = Self::code_tree(symbols);
        Self::lemma_code_tree(symbols);
        tree.lemma_code(a);
        tree.lemma_code(b);
        tree.lemma_prefix_free(a, b);
    }

    /// No more than `k` passes bring `2^k` nodes or fewer down to one.
    pub proof fn lemma_passes_bound(n: nat, k: nat)
        requires
            n <= pow2(k),
        ensures
            Self::passes(n) <= k,
        decreases k,
    {
        if n > 1 {
            if k == 0 {
                lemma2_to64();
            } else {
                lemma_pow2_unfold(k);
                Self::lemma_passes_bound((n + 1) / 2, (k - 1) as nat);
            }
        }
    }

    /// What holds of the code tree of any symbols: it has the shape of a code
    /// tree, its leaves carry the symbols in their order, and no leaf lies more
    /// than 64 steps below the root when the symbols can be counted in a `usize`.
    pub proof fn lemma_code_tree(symbols: Seq<T>)
        requires
            symbols.len() >= 1,
        ensures
            Self::code_tree(symbols).well_formed(),
            Self::code_tree(symbols).symbols() == symbols,
            1 <= Self::code_tree(symbols).depth(),
            symbols.len() <= usize::MAX ==> Self::code_tree(symbols).depth() <= 64,
            symbols.len() == 1 ==> Self::code_tree(symbols) == Self::lone(Self::leaf(symbols[0])),
    {
        let level = Self::leaves(symbols);
        let top = Self::merge_all(level);
        Self::lemma_leaves_flatten(symbols);
        Self::lemma_merge_all_symbols(level);
        Self::lemma_merge_all_shape(level, 0);
        let tree = Self::code_tree(symbols);
        if symbols.len() == 1 {
            assert(top == Self::leaf(symbols[0]));
            assert(tree == Self::lone(Self::leaf(symbols[0])));
            assert(tree.symbols() =~= symbols);
            assert(Self::passes(1) == 0);
        } else {
            assert(tree == top);
        }
        if symbols.len() <= usize::MAX {
            lemma2_to64();
            lemma2_to64_rest();
            Self::lemma_passes_bound(symbols.len(), 64);
        }
    }
}

} // verus!
