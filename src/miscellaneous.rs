use vstd::prelude::*;

verus! {

/// `i` is the lowest index holding a maximum of `s`.
pub open spec fn is_first_max(s: Seq<int>, i: int) -> bool {
    &&& 0 <= i < s.len()
    &&& forall|j: int| 0 <= j < s.len() ==> s[j] <= s[i]
    &&& forall|j: int| 0 <= j < i ==> s[j] < s[i]
}

/// `i` is the lowest index holding a minimum of `s`.
pub open spec fn is_first_min(s: Seq<int>, i: int) -> bool {
    &&& 0 <= i < s.len()
    &&& forall|j: int| 0 <= j < s.len() ==> s[i] <= s[j]
    &&& forall|j: int| 0 <= j < i ==> s[i] < s[j]
}

/// Index and value of the extreme elements of a sequence of numbers.
/// Every query fails (returns `None`) exactly on an empty sequence.
pub trait ArgOrd<T> {
    /// The elements, as mathematical integers.
    spec fn ranks(&self) -> Seq<int>;

    /// One element, as a mathematical integer.
    spec fn rank_of(v: T) -> int;

    fn arg_max(&self) -> (r: Option<usize>)
        ensures
            r is None <==> self.ranks().len() == 0,
            r matches Some(i) ==> is_first_max(self.ranks(), i as int),
    ;

    fn arg_min(&self) -> (r: Option<usize>)
        ensures
            r is None <==> self.ranks().len() == 0,
            r matches Some(i) ==> is_first_min(self.ranks(), i as int),
    ;

    fn min_val(&self) -> (r: Option<T>)
        ensures
            r is None <==> self.ranks().len() == 0,
            r matches Some(v) ==> exists|i: int|
                is_first_min(self.ranks(), i) && #[trigger] Self::rank_of(v) == self.ranks()[i],
    ;

    fn max_val(&self) -> (r: Option<T>)
        ensures
            r is None <==> self.ranks().len() == 0,
            r matches Some(v) ==> exists|i: int|
                is_first_max(self.ranks(), i) && #[trigger] Self::rank_of(v) == self.ranks()[i],
    ;
}

impl ArgOrd<i128> for Vec<i128> {
    open spec fn ranks(&self) -> Seq<int> {
        self@.map_values(|v: i128| v as int)
    }

    open spec fn rank_of(v: i128) -> int {
        v as int
    }

    fn arg_max(&self) -> (r: Option<usize>) {
        if self.len() == 0 {
            return None;
        }
        let mut best: usize = 0;
        let mut i: usize = 1;
        while i < self.len()
            invariant
                1 <= i <= self.len(),
                best < i,
                forall|j: int| 0 <= j < i ==> self@[j] <= self@[best as int],
                forall|j: int| 0 <= j < best ==> self@[j] < self@[best as int],
            decreases self.len() - i,
        {
            if self[i] > self[best] {
                best = i;
            }
            i = i + 1;
        }
        Some(best)
    }

    fn arg_min(&self) -> (r: Option<usize>) {
        if self.len() == 0 {
            return None;
        }
        let mut best: usize = 0;
        let mut i: usize = 1;
        while i < self.len()
            invariant
                1 <= i <= self.len(),
                best < i,
                forall|j: int| 0 <= j < i ==> self@[best as int] <= self@[j],
                forall|j: int| 0 <= j < best ==> self@[best as int] < self@[j],
            decreases self.len() - i,
        {
            if self[i] < self[best] {
                best = i;
            }
            i = i + 1;
        }
        Some(best)
    }

    fn min_val(&self) -> (r: Option<i128>) {
        match self.arg_min() {
            Some(i) => {
                assert(Self::rank_of(self@[i as int]) == self.ranks()[i as int]);
                Some(self[i])
            },
            None => None,
        }
    }

    fn max_val(&self) -> (r: Option<i128>) {
        match self.arg_max() {
            Some(i) => {
                assert(Self::rank_of(self@[i as int]) == self.ranks()[i as int]);
                Some(self[i])
            },
            None => None,
        }
    }
}

impl ArgOrd<u64> for Vec<u64> {
    open spec fn ranks(&self) -> Seq<int> {
        self@.map_values(|v: u64| v as int)
    }

    open spec fn rank_of(v: u64) -> int {
        v as int
    }

    fn arg_max(&self) -> (r: Option<usize>) {
        if self.len() == 0 {
            return None;
        }
        let mut best: usize = 0;
        let mut i: usize = 1;
        while i < self.len()
            invariant
                1 <= i <= self.len(),
                best < i,
                forall|j: int| 0 <= j < i ==> self@[j] <= self@[best as int],
                forall|j: int| 0 <= j < best ==> self@[j] < self@[best as int],
            decreases self.len() - i,
        {
            if self[i] > self[best] {
                best = i;
            }
            i = i + 1;
        }
        Some(best)
    }

    fn arg_min(&self) -> (r: Option<usize>) {
        if self.len() == 0 {
            return None;
        }
        let mut best: usize = 0;
        let mut i: usize = 1;
        while i < self.len()
            invariant
                1 <= i <= self.len(),
                best < i,
                forall|j: int| 0 <= j < i ==> self@[best as int] <= self@[j],
                forall|j: int| 0 <= j < best ==> self@[best as int] < self@[j],
            decreases self.len() - i,
        {
            if self[i] < self[best] {
                best = i;
            }
            i = i + 1;
        }
        Some(best)
    }

    fn min_val(&self) -> (r: Option<u64>) {
        match self.arg_min() {
            Some(i) => {
                assert(Self::rank_of(self@[i as int]) == self.ranks()[i as int]);
                Some(self[i])
            },
            None => None,
        }
    }

    fn max_val(&self) -> (r: Option<u64>) {
        match self.arg_max() {
            Some(i) => {
                assert(Self::rank_of(self@[i as int]) == self.ranks()[i as int]);
                Some(self[i])
            },
            None => None,
        }
    }
}

} // verus!
