//! Paths of trie nodes.
use crate::updates_laws::{is_lower, law_path_order_is_lexicographic};
use vstd::prelude::*;

verus! {

/// The path of a node in a trie: at most 64 nibbles, from the root down.
#[derive(Debug, PartialEq, Eq, Hash)]
pub struct Nibbles {
    nibbles: Vec<u8>,
}

/// How one path stands to another.
#[derive(Debug, Clone, Copy, PartialEq, Eq, Structural)]
pub enum PathOrder {
    Before,
    Same,
    After,
}

/// Whether `nibbles` can be a path: every one fits in four bits, and there are at
/// most 64.
pub open spec fn valid_path(nibbles: Seq<u8>) -> bool {
    &&& nibbles.len() <= 64
    &&& forall|i: int| 0 <= i < nibbles.len() ==> #[trigger] nibbles[i] <= 0xf
}

/// Lexicographic order on paths: a prefix comes before what extends it.
pub open spec fn path_before(left: Seq<u8>, right: Seq<u8>) -> bool
    decreases left.len(),
{
    if right.len() == 0 {
        false
    } else if left.len() == 0 {
        true
    } else if left[0] != right[0] {
        left[0] < right[0]
    } else {
        path_before(left.drop_first(), right.drop_first())
    }
}

/// What `PathOrder` says about two paths.
pub open spec fn path_order(left: Seq<u8>, right: Seq<u8>) -> PathOrder {
    if left == right {
        PathOrder::Same
    } else if path_before(left, right) {
        PathOrder::Before
    } else {
        PathOrder::After
    }
}

/// No path comes before itself.
pub proof fn lemma_path_before_irreflexive(path: Seq<u8>)
    ensures
        !path_before(path, path),
    decreases path.len(),
{
    if path.len() > 0 {
        lemma_path_before_irreflexive(path.drop_first());
    }
}

/// Of two different paths exactly one comes before the other.
pub proof fn lemma_path_before_total(left: Seq<u8>, right: Seq<u8>)
    requires
        left != right,
    ensures
        path_before(left, right) != path_before(right, left),
    decreases left.len(),
{
    if left.len() == 0 || right.len() == 0 {
        assert(left.len() == right.len() ==> left =~= right);
    } else if left[0] == right[0] {
        assert(left =~= seq![left[0]] + left.drop_first());
        assert(right =~= seq![right[0]] + right.drop_first());
        lemma_path_before_total(left.drop_first(), right.drop_first());
    }
}

/// The order of paths is transitive.
pub proof fn lemma_path_before_transitive(a: Seq<u8>, b: Seq<u8>, c: Seq<u8>)
    requires
        path_before(a, b),
        path_before(b, c),
    ensures
        path_before(a, c),
    decreases a.len(),
{
    if a.len() > 0 && a[0] == b[0] && b[0] == c[0] {
        lemma_path_before_transitive(a.drop_first(), b.drop_first(), c.drop_first());
    }
}

impl View for Nibbles {
    type V = Seq<u8>;

    closed spec fn view(&self) -> Seq<u8> {
        self.nibbles@
    }
}

impl Nibbles {
    #[verifier::type_invariant]
    spec fn well_formed(self) -> bool {
        valid_path(self.nibbles@)
    }

    /// The path that consists of the given nibbles.
    pub fn from_nibbles(nibbles: Vec<u8>) -> (path: Self)
        requires
            valid_path(nibbles@),
        ensures
            path@ == nibbles@,
    {
        Nibbles { nibbles }
    }

    /// The nibbles of the path.
    pub fn as_slice(&self) -> (nibbles: &[u8])
        ensures
            nibbles@ == self@,
            valid_path(nibbles@),
    {
        proof {
            use_type_invariant(self);
        }
        self.nibbles.as_slice()
    }

    /// How this path stands to `other`.
    pub fn order(&self, other: &Self) -> (order: PathOrder)
        ensures
            order == path_order(self@, other@),
            order is Same <==> self@ == other@,
            order is Before <==> is_lower(self@, other@),
            order is After <==> is_lower(other@, self@),
    {
        proof {
            law_path_order_is_lexicographic(self@, other@);
        }
        let left: usize = self.nibbles.len();
        let right: usize = other.nibbles.len();
        let mut i: usize = 0;
        proof {
            assert(self@.skip(0) =~= self@);
            assert(other@.skip(0) =~= other@);
        }
        while i < left && i < right
            invariant
                path_order(self@, other@) is Before <==> is_lower(self@, other@),
                path_order(self@, other@) is After <==> is_lower(other@, self@),
                left == self@.len(),
                right == other@.len(),
                i <= left,
                i <= right,
                forall|k: int| 0 <= k < i ==> self@[k] == other@[k],
                path_before(self@, other@) == path_before(self@.skip(i as int), other@.skip(i as int)),
            decreases left - i,
        {
            let a: u8 = self.nibbles[i];
            let b: u8 = other.nibbles[i];
            if a < b {
                return PathOrder::Before;
            }
            if b < a {
                return PathOrder::After;
            }
            proof {
                assert(self@.skip(i as int).drop_first() =~= self@.skip(i + 1));
                assert(other@.skip(i as int).drop_first() =~= other@.skip(i + 1));
            }
            i = i + 1;
        }
        if left < right {
            PathOrder::Before
        } else if right < left {
            PathOrder::After
        } else {
            assert(self@ =~= other@);
            PathOrder::Same
        }
    }
}

impl Clone for Nibbles {
    fn clone(&self) -> (copy: Self)
        ensures
            copy@ == self@,
    {
        proof {
            use_type_invariant(self);
        }
        let nibbles = self.nibbles.clone();
        assert(nibbles@ =~= self.nibbles@);
        Nibbles { nibbles }
    }
}

} // verus!
