//! Addressing of sub-values: a target is either the value itself or a
//! path of field names leading to a nested sub-value.

use vstd::prelude::*;

verus! {

/// The target of a reflection operation on a tracked variable.
pub enum ActionTarget {
    /// The variable itself.
    This,
    /// A non-empty path of field names to a nested sub-value.
    Field(Vec<String>),
}

impl ActionTarget {
    /// A `Field` path is never empty.
    pub open spec fn wf(&self) -> bool {
        match self {
            ActionTarget::This => true,
            ActionTarget::Field(f) => f@.len() >= 1,
        }
    }

    /// The path of field names below the addressed variable.
    pub open spec fn path(&self) -> Seq<Seq<char>> {
        match self {
            ActionTarget::This => Seq::empty(),
            ActionTarget::Field(f) => f.deep_view(),
        }
    }

    /// Returns `true` if the target is the variable itself.
    pub fn is_this(&self) -> (r: bool)
        ensures
            r == (self is This),
    {
        matches!(self, ActionTarget::This)
    }

    /// Build an `ActionTarget` from a full wire path by stripping its
    /// first segment, the variable name.
    pub fn from_name_and_fields(slice: &Vec<String>) -> (r: ActionTarget)
        ensures
            r.wf(),
            slice@.len() < 2 ==> r is This,
            slice@.len() >= 2 ==> (r matches ActionTarget::Field(f) && f.deep_view()
                == slice.deep_view().skip(1)),
    {
        if slice.len() < 2 {
            ActionTarget::This
        } else {
            let mut rest: Vec<String> = Vec::new();
            let n: usize = slice.len();
            let mut i: usize = 1;
            while i < n
                invariant
                    1 <= i <= n,
                    n == slice@.len(),
                    rest@.len() == i - 1,
                    forall|j: int| 0 <= j < i - 1 ==> rest@[j]@ == slice@[j + 1]@,
                decreases n - i,
            {
                rest.push(slice[i].clone());
                i += 1;
            }
            proof {
                assert forall|j: int| 0 <= j < rest@.len() implies rest.deep_view()[j]
                    == slice.deep_view().skip(1)[j] by {
                    assert(rest.deep_view()[j] == rest@[j]@);
                    assert(slice.deep_view().skip(1)[j] == slice@[j + 1]@);
                }
                assert(rest.deep_view() =~= slice.deep_view().skip(1));
            }
            ActionTarget::Field(rest)
        }
    }

    /// On a `Field` target, the topmost field name and the target to hand
    /// to that field; `None` on `This`.
    pub fn strip_one_field(&self) -> (r: Option<(String, ActionTarget)>)
        requires
            self.wf(),
        ensures
            self is This ==> r is None,
            self matches ActionTarget::Field(f) ==> (r matches Some(p) && p.0@ == f.deep_view()[0]
                && p.1.wf() && p.1.path() == f.deep_view().skip(1)),
    {
        match self {
            ActionTarget::This => None,
            ActionTarget::Field(fields) => {
                let name = fields[0].clone();
                let rest = ActionTarget::from_name_and_fields(fields);
                proof {
                    if fields@.len() < 2 {
                        assert(fields.deep_view().skip(1) =~= Seq::<Seq<char>>::empty());
                    }
                }
                Some((name, rest))
            },
        }
    }

    /// The target one step further down; `This` stays `This`.
    pub open spec fn spec_rest(&self) -> Seq<Seq<char>> {
        self.path().skip(1)
    }
}

} // verus!
