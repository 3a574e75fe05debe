//! Positional addresses for tree nodes.
//!
//! A [`Path`] is an ordered, finite sequence of child indices, walked from a
//! root: step `0` means "first child". The empty path addresses the node
//! itself. A path is a value: the operations that "modify" one return a new
//! path and leave the receiver unchanged.

use std::collections::VecDeque;
use vstd::prelude::*;

verus! {

/// A sequence of child-index steps addressing a node relative to a root.
#[derive(Clone, Debug, PartialEq)]
pub struct Path(pub VecDeque<usize>);

/// The steps of a path, as unbounded integers.
pub open spec fn steps_of(steps: Seq<usize>) -> Seq<int> {
    steps.map_values(|step: usize| step as int)
}

impl View for Path {
    type V = Seq<int>;

    open spec fn view(&self) -> Seq<int> {
        steps_of(self.0@)
    }
}

impl Path {
    /// The empty path, which addresses the root itself.
    pub fn new() -> (p: Path)
        ensures
            p@ == Seq::<int>::empty(),
    {
        let p = Path(VecDeque::new());
        proof {
            assert(p@ =~= Seq::<int>::empty());
        }
        p
    }

    /// Builds the path whose steps are exactly `steps`, in order.
    pub fn from_steps(steps: Vec<usize>) -> (p: Path)
        ensures
            p@ == steps_of(steps@),
    {
        let mut inner: VecDeque<usize> = VecDeque::new();
        let mut i: usize = 0;
        while i < steps.len()
            invariant
                i <= steps.len(),
                inner@ == steps@.take(i as int),
            decreases steps.len() - i,
        {
            inner.push_back(steps[i]);
            proof {
                assert(inner@ =~= steps@.take(i as int + 1));
            }
            i += 1;
        }
        proof {
            assert(inner@ =~= steps@);
        }
        Path(inner)
    }

    /// Returns a new path equal to `self` with `value` appended;
    /// `self` is unchanged.
    pub fn push_back(&self, value: usize) -> (r: Path)
        ensures
            r@ == self@.push(value as int),
    {
        let mut new_steps = self.clone_steps();
        new_steps.push_back(value);
        let r = Path(new_steps);
        proof {
            assert(r@ =~= self@.push(value as int));
        }
        r
    }

    /// Splits off the first step: `None` on the empty path, otherwise the
    /// first step and a new path of the remaining steps; `self` is unchanged.
    pub fn split_front(&self) -> (r: Option<(usize, Path)>)
        ensures
            match r {
                None => self@.len() == 0,
                Some((head, rest)) => {
                    &&& self@.len() > 0
                    &&& head as int == self@[0]
                    &&& rest@ == self@.drop_first()
                },
            },
    {
        let mut new_steps = self.clone_steps();
        let option_front_elem: Option<usize> = new_steps.pop_front();
        match option_front_elem {
            None => None,
            Some(i) => {
                let rest = Path(new_steps);
                proof {
                    assert(rest@ =~= self@.drop_first());
                }
                Some((i, rest))
            },
        }
    }

    /// Copies the step sequence.
    fn clone_steps(&self) -> (r: VecDeque<usize>)
        ensures
            r@ == self.0@,
    {
        let r = self.0.clone();
        proof {
            assert forall|i: int| 0 <= i < self.0@.len() implies r@[i] == self.0@[i] by {
                assert(cloned::<usize>(self.0@[i], r@[i]));
            }
            assert(r@ =~= self.0@);
        }
        r
    }
}

/// The decomposition that `split_front` performs on a path built by
/// `push_back`: the result is never empty, it is its first step followed by
/// the rest, and pushing onto the empty path yields exactly that step
/// followed by the empty path.
pub proof fn lemma_push_back_split_front(s: Seq<int>, x: int)
    ensures
        s.push(x).len() > 0,
        s.push(x) == seq![s.push(x)[0]] + s.push(x).drop_first(),
        s.len() == 0 ==> s.push(x)[0] == x && s.push(x).drop_first() == Seq::<int>::empty(),
        s.len() > 0 ==> s.push(x)[0] == s[0] && s.push(x).drop_first() == s.drop_first().push(x),
{
    assert(s.push(x) =~= seq![s.push(x)[0]] + s.push(x).drop_first());
    if s.len() == 0 {
        assert(s.push(x).drop_first() =~= Seq::<int>::empty());
    } else {
        assert(s.push(x).drop_first() =~= s.drop_first().push(x));
    }
}

} // verus!
