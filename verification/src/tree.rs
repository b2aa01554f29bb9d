//! The lookup tree: every sequence of marks names one node of a binary tree
//! that is stored as an array, root first, level by level.

use crate::text::chars_of;
use vstd::arithmetic::power2::{
    lemma2_to64, lemma_pow2_strictly_increases, lemma_pow2_unfold, pow2,
};
use vstd::prelude::*;

verus! {

/// The short mark.
pub const DOT: char = '.';

/// The long mark.
pub const DASH: char = '-';

/// The longest code that has a node in the stored part of the tree.
pub const MAX_CODE_LEN: usize = 5;

/// The number of nodes in the stored part of the tree: all those that a code
/// of at most `MAX_CODE_LEN` marks leads to, and the root.
pub const TREE_SLOTS: usize = 63;

/// The longest sequence of marks whose node is computed. Such a node is below
/// 2^31, which every `usize` holds; a longer sequence has none that is sure
/// to fit.
pub const MAX_INDEXED_LEN: usize = 30;

/// Whether `c` is one of the two marks.
pub open spec fn is_mark(c: char) -> bool {
    c == DOT || c == DASH
}

/// Whether `code` holds marks and nothing else.
pub open spec fn is_marks(code: Seq<char>) -> bool {
    forall|i: int| 0 <= i < code.len() ==> is_mark(#[trigger] code[i])
}

/// The node that `code` leads to from the root, which is node 0: a dot goes
/// to the left child of node `n`, which is `2n + 1`, a dash to the right
/// child, `2n + 2`. Any other character leaves the node as it is, so the
/// result names the code only among sequences of marks.
pub open spec fn tree_index(code: Seq<char>) -> nat
    decreases code.len(),
{
    if code.len() == 0 {
        0
    } else {
        let parent = tree_index(code.drop_last());
        if code.last() == DOT {
            2 * parent + 1
        } else if code.last() == DASH {
            2 * parent + 2
        } else {
            parent
        }
    }
}

/// The number that `code` spells in binary, a dot for 0 and a dash for 1,
/// the first mark weighing most.
pub open spec fn binary_value(code: Seq<char>) -> nat
    decreases code.len(),
{
    if code.len() == 0 {
        0
    } else if code.last() == DASH {
        2 * binary_value(code.drop_last()) + 1
    } else {
        2 * binary_value(code.drop_last())
    }
}

/// The node of a sequence of `n` marks in closed form: the `2^n - 1` nodes of
/// the levels above come first, and within its level the node stands at the
/// place that the marks spell in binary.
pub proof fn lemma_index_closed_form(code: Seq<char>)
    requires
        is_marks(code),
    ensures
        tree_index(code) == pow2(code.len()) - 1 + binary_value(code),
        binary_value(code) < pow2(code.len()),
    decreases code.len(),
{
    lemma2_to64();
    if code.len() > 0 {
        lemma_index_closed_form(code.drop_last());
        lemma_pow2_unfold(code.len());
    }
}

/// A sequence of `n` marks leads to a node of level `n`: the levels fill the
/// array one after another, level `n` from position `2^n - 1` on.
pub proof fn lemma_index_level(code: Seq<char>)
    requires
        is_marks(code),
    ensures
        pow2(code.len()) - 1 <= tree_index(code) <= pow2(code.len() + 1) - 2,
    decreases code.len(),
{
    lemma2_to64();
    if code.len() > 0 {
        lemma_index_level(code.drop_last());
        lemma_pow2_unfold(code.len());
        lemma_pow2_unfold(code.len() + 1);
    }
}

/// A sequence of marks has a node in the stored part of the tree exactly when
/// it is at most `MAX_CODE_LEN` long.
pub proof fn lemma_index_in_range(code: Seq<char>)
    requires
        is_marks(code),
    ensures
        code.len() <= MAX_CODE_LEN <==> tree_index(code) < TREE_SLOTS,
{
    lemma2_to64();
    lemma_index_level(code);
    if code.len() > 6 {
        lemma_pow2_strictly_increases(6, code.len());
    }
}

/// The node of a sequence of at most `MAX_INDEXED_LEN` marks is below 2^31,
/// so that every `usize` holds it.
pub proof fn lemma_index_fits(code: Seq<char>)
    requires
        is_marks(code),
        code.len() <= MAX_INDEXED_LEN,
    ensures
        tree_index(code) < 0x8000_0000,
        tree_index(code) <= usize::MAX,
{
    lemma2_to64();
    lemma_index_level(code);
    if code.len() + 1 < 31 {
        lemma_pow2_strictly_increases(code.len() + 1, 31);
    }
}

/// No two sequences of marks lead to the same node.
pub proof fn lemma_index_injective(a: Seq<char>, b: Seq<char>)
    requires
        is_marks(a),
        is_marks(b),
        tree_index(a) == tree_index(b),
    ensures
        a == b,
    decreases a.len(),
{
    if a.len() > 0 && b.len() > 0 {
        lemma_index_injective(a.drop_last(), b.drop_last());
        assert(b =~= b.drop_last().push(b.last()));
    } else {
        assert(a =~= b);
    }
}

/// The node that `code` leads to, where it is a sequence of at most
/// `MAX_INDEXED_LEN` marks. The node may lie beyond the stored part of the
/// tree: whoever looks it up there checks that first.
pub fn index_of(code: &[char]) -> (index: Option<usize>)
    ensures
        match index {
            Some(node) => is_marks(code@) && code@.len() <= MAX_INDEXED_LEN && node
                == tree_index(code@) && node == pow2(code@.len()) - 1 + binary_value(code@),
            None => !is_marks(code@) || code@.len() > MAX_INDEXED_LEN,
        },
{
    if code.len() > MAX_INDEXED_LEN {
        return None;
    }
    let mut node: usize = 0;
    let mut i: usize = 0;
    proof {
        lemma2_to64();
    }
    while i < code.len()
        invariant
            0 <= i <= code.len() <= MAX_INDEXED_LEN,
            is_marks(code@.take(i as int)),
            node == tree_index(code@.take(i as int)),
            node + 2 <= pow2(i as nat + 1),
        decreases code.len() - i,
    {
        let c = code[i];
        proof {
            assert(code@.take(i + 1).drop_last() =~= code@.take(i as int));
            lemma_pow2_unfold(i as nat + 2);
            lemma2_to64();
            if i + 2 < 31 {
                lemma_pow2_strictly_increases(i as nat + 2, 31);
            }
        }
        if c == DOT {
            node = 2 * node + 1;
        } else if c == DASH {
            node = 2 * node + 2;
        } else {
            return None;
        }
        i += 1;
    }
    proof {
        assert(code@.take(i as int) =~= code@);
        lemma_index_closed_form(code@);
    }
    Some(node)
}

/// The node that `character` leads to, where it is a sequence of at most
/// `MAX_INDEXED_LEN` marks. The node may lie beyond the stored part of the
/// tree: whoever looks it up there checks that first.
pub fn character_index(character: &str) -> (index: Option<usize>)
    ensures
        match index {
            Some(node) => is_marks(character@) && character@.len() <= MAX_INDEXED_LEN && node
                == tree_index(character@) && node == pow2(character@.len()) - 1 + binary_value(character@),
            None => !is_marks(character@) || character@.len() > MAX_INDEXED_LEN,
        },
{
    let chars = chars_of(character);
    index_of(chars.as_slice())
}

} // verus!
