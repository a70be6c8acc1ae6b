use vstd::prelude::*;

verus! {

/// The names after interning `n`: unchanged when it is there, else `n` appended.
pub open spec fn add_name(ns: Seq<Seq<char>>, n: Seq<char>) -> Seq<Seq<char>> {
    if ns.contains(n) { ns } else { ns.push(n) }
}

/// Interns sequence names: the id of a name is its position in insertion order.
#[derive(Clone, Debug)]
pub struct SequenceIndex {
    pub names: Vec<String>,
}

impl SequenceIndex {
    pub open spec fn view_names(&self) -> Seq<Seq<char>> {
        self.names@.map_values(|n: String| n@)
    }

    /// Names are pairwise distinct and every id fits in `u32`.
    pub open spec fn wf(&self) -> bool {
        &&& self.names@.len() <= u32::MAX
        &&& forall|i: int, j: int|
            0 <= i < j < self.names@.len() ==> #[trigger] self.names@[i]@ != #[trigger] self.names@[j]@
    }

    /// `n` has been interned.
    pub open spec fn has_name(&self, n: Seq<char>) -> bool {
        exists|i: int| 0 <= i < self.names@.len() && self.names@[i]@ == n
    }

    pub fn new() -> (r: Self)
        ensures
            r.wf(),
            r.names@.len() == 0,
    {
        SequenceIndex { names: Vec::new() }
    }

    /// The id of `name`, if it has been interned.
    pub fn get_id(&self, name: &String) -> (r: Option<u32>)
        requires
            self.wf(),
        ensures
            match r {
                Some(id) => id < self.names@.len() && self.names@[id as int]@ == name@,
                None => forall|i: int| 0 <= i < self.names@.len() ==> self.names@[i]@ != name@,
            },
    {
        let mut i: usize = 0;
        while i < self.names.len()
            invariant
                self.wf(),
                0 <= i <= self.names@.len(),
                forall|k: int| 0 <= k < i ==> self.names@[k]@ != name@,
            decreases self.names@.len() - i,
        {
            if self.names[i] == *name {
                return Some(i as u32);
            }
            i = i + 1;
        }
        None
    }

    /// The id of `name`, interning it first when it is new.
    pub fn get_or_insert_id(&mut self, name: &String) -> (r: u32)
        requires
            old(self).wf(),
            old(self).names@.len() < u32::MAX,
        ensures
            final(self).wf(),
            r < final(self).names@.len(),
            final(self).names@[r as int]@ == name@,
            old(self).names@.len() <= final(self).names@.len() <= old(self).names@.len() + 1,
            forall|i: int| 0 <= i < old(self).names@.len() ==> final(self).names@[i] == old(self).names@[i],
            final(self).view_names() == add_name(old(self).view_names(), name@),
            (exists|i: int| 0 <= i < old(self).names@.len() && old(self).names@[i]@ == name@)
                ==> final(self).names@ == old(self).names@,
            !(exists|i: int| 0 <= i < old(self).names@.len() && old(self).names@[i]@ == name@)
                ==> final(self).names@.len() == old(self).names@.len() + 1
                && final(self).names@.subrange(0, old(self).names@.len() as int) == old(self).names@,
    {
        match self.get_id(name) {
            Some(id) => {
                proof {
                    assert(self.view_names()[id as int] == name@);
                }
                id
            },
            None => {
                proof {
                    assert(!self.view_names().contains(name@)) by {
                        if self.view_names().contains(name@) {
                            let w = choose|w: int| 0 <= w < self.view_names().len() && self.view_names()[w] == name@;
                            assert(self.names@[w]@ == name@);
                        }
                    }
                }
                let id = self.names.len() as u32;
                self.names.push(name.clone());
                proof {
                    assert(self.names@.subrange(0, old(self).names@.len() as int) =~= old(self).names@);
                    assert(self.view_names() =~= old(self).view_names().push(name@));
                }
                id
            },
        }
    }

    /// Decides `wf`: no name repeats and every id fits in `u32`.
    pub fn is_wf(&self) -> (r: bool)
        ensures
            r == self.wf(),
    {
        let n: usize = self.names.len();
        if n > u32::MAX as usize {
            return false;
        }
        let mut j: usize = 0;
        while j < n
            invariant
                n == self.names@.len() <= u32::MAX,
                0 <= j <= n,
                forall|a: int, b: int|
                    0 <= a < b < j ==> #[trigger] self.names@[a]@ != #[trigger] self.names@[b]@,
            decreases n - j,
        {
            let mut i: usize = 0;
            while i < j
                invariant
                    n == self.names@.len(),
                    0 <= i <= j < n,
                    forall|a: int| 0 <= a < i ==> self.names@[a]@ != #[trigger] self.names@[j as int]@,
                decreases j - i,
            {
                if self.names[i] == self.names[j] {
                    return false;
                }
                i = i + 1;
            }
            j = j + 1;
        }
        true
    }

    /// A copy holding the same names.
    pub fn duplicate(&self) -> (r: Self)
        ensures
            r.view_names() == self.view_names(),
            r.names@.len() == self.names@.len(),
    {
        let mut names: Vec<String> = Vec::new();
        let mut i: usize = 0;
        while i < self.names.len()
            invariant
                0 <= i <= self.names@.len(),
                names@.len() == i,
                forall|k: int| 0 <= k < i ==> #[trigger] names@[k]@ == self.names@[k]@,
            decreases self.names@.len() - i,
        {
            names.push(self.names[i].clone());
            i = i + 1;
        }
        let r = SequenceIndex { names };
        proof {
            assert(r.view_names() =~= self.view_names());
        }
        r
    }

    pub fn len(&self) -> (r: usize)
        ensures
            r == self.names@.len(),
    {
        self.names.len()
    }
}

} // verus!
