//! Keys: priorities that can be compared and lowered.
use vstd::prelude::*;

verus! {

/// A priority that a heap can order and lower.
///
/// Every key stands for an integer, its `priority`; keys are ordered by it.
/// A key is lowered by a non-negative amount of its own type, as long as the
/// result is still a value of the type.
pub trait HeapKey: Copy {
    /// The integer by which keys are ordered.
    spec fn priority(self) -> int;

    /// The key that is `delta` below `self`, where there is one.
    spec fn spec_decreased(self, delta: Self) -> Option<Self>;

    /// Lowering a key never raises its priority.
    proof fn lemma_decreased_is_lower(self, delta: Self)
        ensures
            self.spec_decreased(delta) matches Some(k) ==> k.priority() <= self.priority(),
    ;

    /// Whether `self` is strictly below `other`.
    fn less_than(&self, other: &Self) -> (b: bool)
        ensures
            b == (self.priority() < other.priority()),
    ;

    /// `self` lowered by `delta`; `None` where `delta` is negative or the
    /// result would leave the type.
    fn decreased(&self, delta: &Self) -> (r: Option<Self>)
        ensures
            r == self.spec_decreased(*delta),
    ;
}

impl HeapKey for u8 {
    open spec fn priority(self) -> int {
        self as int
    }

    open spec fn spec_decreased(self, delta: Self) -> Option<Self> {
        if delta <= self {
            Some((self - delta) as u8)
        } else {
            None
        }
    }

    proof fn lemma_decreased_is_lower(self, delta: Self) {}

    fn less_than(&self, other: &Self) -> (b: bool) {
        *self < *other
    }

    fn decreased(&self, delta: &Self) -> (r: Option<Self>) {
        if *delta <= *self {
            Some(*self - *delta)
        } else {
            None
        }
    }
}

impl HeapKey for u16 {
    open spec fn priority(self) -> int {
        self as int
    }

    open spec fn spec_decreased(self, delta: Self) -> Option<Self> {
        if delta <= self {
            Some((self - delta) as u16)
        } else {
            None
        }
    }

    proof fn lemma_decreased_is_lower(self, delta: Self) {}

    fn less_than(&self, other: &Self) -> (b: bool) {
        *self < *other
    }

    fn decreased(&self, delta: &Self) -> (r: Option<Self>) {
        if *delta <= *self {
            Some(*self - *delta)
        } else {
            None
        }
    }
}

impl HeapKey for u32 {
    open spec fn priority(self) -> int {
        self as int
    }

    open spec fn spec_decreased(self, delta: Self) -> Option<Self> {
        if delta <= self {
            Some((self - delta) as u32)
        } else {
            None
        }
    }

    proof fn lemma_decreased_is_lower(self, delta: Self) {}

    fn less_than(&self, other: &Self) -> (b: bool) {
        *self < *other
    }

    fn decreased(&self, delta: &Self) -> (r: Option<Self>) {
        if *delta <= *self {
            Some(*self - *delta)
        } else {
            None
        }
    }
}

impl HeapKey for u64 {
    open spec fn priority(self) -> int {
        self as int
    }

    open spec fn spec_decreased(self, delta: Self) -> Option<Self> {
        if delta <= self {
            Some((self - delta) as u64)
        } else {
            None
        }
    }

    proof fn lemma_decreased_is_lower(self, delta: Self) {}

    fn less_than(&self, other: &Self) -> (b: bool) {
        *self < *other
    }

    fn decreased(&self, delta: &Self) -> (r: Option<Self>) {
        if *delta <= *self {
            Some(*self - *delta)
        } else {
            None
        }
    }
}

impl HeapKey for u128 {
    open spec fn priority(self) -> int {
        self as int
    }

    open spec fn spec_decreased(self, delta: Self) -> Option<Self> {
        if delta <= self {
            Some((self - delta) as u128)
        } else {
            None
        }
    }

    proof fn lemma_decreased_is_lower(self, delta: Self) {}

    fn less_than(&self, other: &Self) -> (b: bool) {
        *self < *other
    }

    fn decreased(&self, delta: &Self) -> (r: Option<Self>) {
        if *delta <= *self {
            Some(*self - *delta)
        } else {
            None
        }
    }
}

impl HeapKey for usize {
    open spec fn priority(self) -> int {
        self as int
    }

    open spec fn spec_decreased(self, delta: Self) -> Option<Self> {
        if delta <= self {
            Some((self - delta) as usize)
        } else {
            None
        }
    }

    proof fn lemma_decreased_is_lower(self, delta: Self) {}

    fn less_than(&self, other: &Self) -> (b: bool) {
        *self < *other
    }

    fn decreased(&self, delta: &Self) -> (r: Option<Self>) {
        if *delta <= *self {
            Some(*self - *delta)
        } else {
            None
        }
    }
}

impl HeapKey for i8 {
    open spec fn priority(self) -> int {
        self as int
    }

    open spec fn spec_decreased(self, delta: Self) -> Option<Self> {
        if 0 <= delta && i8::MIN <= self - delta {
            Some((self - delta) as i8)
        } else {
            None
        }
    }

    proof fn lemma_decreased_is_lower(self, delta: Self) {}

    fn less_than(&self, other: &Self) -> (b: bool) {
        *self < *other
    }

    fn decreased(&self, delta: &Self) -> (r: Option<Self>) {
        if 0 <= *delta && i8::MIN + *delta <= *self {
            Some(*self - *delta)
        } else {
            None
        }
    }
}

impl HeapKey for i16 {
    open spec fn priority(self) -> int {
        self as int
    }

    open spec fn spec_decreased(self, delta: Self) -> Option<Self> {
        if 0 <= delta && i16::MIN <= self - delta {
            Some((self - delta) as i16)
        } else {
            None
        }
    }

    proof fn lemma_decreased_is_lower(self, delta: Self) {}

    fn less_than(&self, other: &Self) -> (b: bool) {
        *self < *other
    }

    fn decreased(&self, delta: &Self) -> (r: Option<Self>) {
        if 0 <= *delta && i16::MIN + *delta <= *self {
            Some(*self - *delta)
        } else {
            None
        }
    }
}

impl HeapKey for i32 {
    open spec fn priority(self) -> int {
        self as int
    }

    open spec fn spec_decreased(self, delta: Self) -> Option<Self> {
        if 0 <= delta && i32::MIN <= self - delta {
            Some((self - delta) as i32)
        } else {
            None
        }
    }

    proof fn lemma_decreased_is_lower(self, delta: Self) {}

    fn less_than(&self, other: &Self) -> (b: bool) {
        *self < *other
    }

    fn decreased(&self, delta: &Self) -> (r: Option<Self>) {
        if 0 <= *delta && i32::MIN + *delta <= *self {
            Some(*self - *delta)
        } else {
            None
        }
    }
}

impl HeapKey for i64 {
    open spec fn priority(self) -> int {
        self as int
    }

    open spec fn spec_decreased(self, delta: Self) -> Option<Self> {
        if 0 <= delta && i64::MIN <= self - delta {
            Some((self - delta) as i64)
        } else {
            None
        }
    }

    proof fn lemma_decreased_is_lower(self, delta: Self) {}

    fn less_than(&self, other: &Self) -> (b: bool) {
        *self < *other
    }

    fn decreased(&self, delta: &Self) -> (r: Option<Self>) {
        if 0 <= *delta && i64::MIN + *delta <= *self {
            Some(*self - *delta)
        } else {
            None
        }
    }
}

impl HeapKey for i128 {
    open spec fn priority(self) -> int {
        self as int
    }

    open spec fn spec_decreased(self, delta: Self) -> Option<Self> {
        if 0 <= delta && i128::MIN <= self - delta {
            Some((self - delta) as i128)
        } else {
            None
        }
    }

    proof fn lemma_decreased_is_lower(self, delta: Self) {}

    fn less_than(&self, other: &Self) -> (b: bool) {
        *self < *other
    }

    fn decreased(&self, delta: &Self) -> (r: Option<Self>) {
        if 0 <= *delta && i128::MIN + *delta <= *self {
            Some(*self - *delta)
        } else {
            None
        }
    }
}

impl HeapKey for isize {
    open spec fn priority(self) -> int {
        self as int
    }

    open spec fn spec_decreased(self, delta: Self) -> Option<Self> {
        if 0 <= delta && isize::MIN <= self - delta {
            Some((self - delta) as isize)
        } else {
            None
        }
    }

    proof fn lemma_decreased_is_lower(self, delta: Self) {}

    fn less_than(&self, other: &Self) -> (b: bool) {
        *self < *other
    }

    fn decreased(&self, delta: &Self) -> (r: Option<Self>) {
        if 0 <= *delta && isize::MIN + *delta <= *self {
            Some(*self - *delta)
        } else {
            None
        }
    }
}

} // verus!
