//! A worklist of package names that holds each name at most once.

use vstd::prelude::*;

use crate::text::str_eq;

verus! {

/// An ordered list of names, free of duplicates: names are drawn from the
/// back, urgent ones enter at the front, new ones at the back.
pub struct Requirements {
    list: Vec<String>,
}

impl View for Requirements {
    type V = Seq<Seq<char>>;

    closed spec fn view(&self) -> Seq<Seq<char>> {
        self.list.deep_view()
    }
}

/// The list holds no name twice.
pub open spec fn wf_requirements(r: Seq<Seq<char>>) -> bool {
    forall|i: int, j: int| 0 <= i < j < r.len() ==> r[i] != r[j]
}

impl Requirements {
    /// An empty worklist.
    pub fn new() -> (r: Requirements)
        ensures
            r@.len() == 0,
            wf_requirements(r@),
    {
        Requirements { list: Vec::new() }
    }

    /// Whether the worklist holds nothing.
    pub fn is_empty(&self) -> (r: bool)
        ensures
            r == (self@.len() == 0),
    {
        self.list.len() == 0
    }

    /// Whether the worklist holds the name.
    fn holds(&self, dependency: &str) -> (r: bool)
        ensures
            r == (exists|i: int| 0 <= i < self@.len() && self@[i] == dependency@),
    {
        let mut i: usize = 0;
        while i < self.list.len()
            invariant
                i <= self@.len(),
                self@.len() == self.list@.len(),
                self@ == self.list.deep_view(),
                forall|j: int| 0 <= j < i ==> self@[j] != dependency@,
            decreases self.list@.len() - i,
        {
            if str_eq(self.list[i].as_str(), dependency) {
                proof {
                    assert(self@[i as int] == dependency@);
                }
                return true;
            }
            i = i + 1;
        }
        false
    }

    /// Puts the name at the front unless it is already held; says
    /// whether it was new.
    pub fn add(&mut self, dependency: String) -> (r: bool)
        requires
            wf_requirements(old(self)@),
        ensures
            wf_requirements(final(self)@),
            r == !(exists|i: int| 0 <= i < old(self)@.len() && old(self)@[i] == dependency@),
            r ==> final(self)@ == seq![dependency@] + old(self)@,
            !r ==> final(self)@ == old(self)@,
    {
        if self.holds(dependency.as_str()) {
            false
        } else {
            let ghost prev = self.list.deep_view();
            let ghost gdep = dependency@;
            self.list.insert(0, dependency);
            proof {
                assert(self.list.deep_view() =~= seq![gdep] + prev);
                assert forall|i: int, j: int|
                    0 <= i < j < self@.len() implies self@[i] != self@[j] by {
                    if i == 0 {
                        assert(self@[j] == prev[j - 1]);
                    } else {
                        assert(self@[i] == prev[i - 1] && self@[j] == prev[j - 1]);
                    }
                }
            }
            true
        }
    }

    /// Puts the name at the back unless it is already held.
    pub fn append(&mut self, dependency: String)
        requires
            wf_requirements(old(self)@),
        ensures
            wf_requirements(final(self)@),
            (exists|i: int| 0 <= i < old(self)@.len() && old(self)@[i] == dependency@)
                ==> final(self)@ == old(self)@,
            !(exists|i: int| 0 <= i < old(self)@.len() && old(self)@[i] == dependency@)
                ==> final(self)@ == old(self)@.push(dependency@),
    {
        if !self.holds(dependency.as_str()) {
            let ghost prev = self.list.deep_view();
            let ghost gdep = dependency@;
            self.list.push(dependency);
            proof {
                assert(self.list.deep_view() =~= prev.push(gdep));
                assert forall|i: int, j: int|
                    0 <= i < j < self@.len() implies self@[i] != self@[j] by {
                    if j < self@.len() - 1 {
                        assert(self@[i] == prev[i] && self@[j] == prev[j]);
                    } else {
                        assert(self@[i] == prev[i]);
                    }
                }
            }
        }
    }

    /// Draws the name at the back, if any.
    pub fn take(&mut self) -> (r: Option<String>)
        requires
            wf_requirements(old(self)@),
        ensures
            wf_requirements(final(self)@),
            match r {
                Some(name) => old(self)@.len() >= 1 && name@ == old(self)@.last() && final(self)@
                    == old(self)@.drop_last(),
                None => old(self)@.len() == 0 && final(self)@ == old(self)@,
            },
    {
        let ghost prev = self.list.deep_view();
        let r = self.list.pop();
        proof {
            match r {
                Some(ref name) => {
                    assert(self.list.deep_view() =~= prev.drop_last());
                },
                None => {
                    assert(self.list.deep_view() =~= prev);
                },
            }
        }
        r
    }
}

} // verus!
