use vstd::prelude::*;
use crate::Entity;

verus! {

/// A fixed-size array of up to 8 entities. When a ninth element arrives,
/// the storage switches to a heap-allocated vector of any size.
pub enum DynamicArray8 {
    /// Up to 8 elements inline, along with the count in use.
    Fixed([Entity; 8], u8),
    /// A heap-allocated array of any number of elements.
    Dynamic(Vec<Entity>),
}

/// The first position of `e` in `s` at or after `k`, or the length if `e`
/// does not occur.
pub open spec fn find_first(s: Seq<Entity>, e: Entity, k: int) -> int
    decreases s.len() - k,
{
    if k < 0 || k >= s.len() {
        s.len() as int
    } else if s[k] == e {
        k
    } else {
        find_first(s, e, k + 1)
    }
}

impl View for DynamicArray8 {
    type V = Seq<Entity>;

    open spec fn view(&self) -> Seq<Entity> {
        match self {
            DynamicArray8::Fixed(a, c) => a@.take(*c as int),
            DynamicArray8::Dynamic(v) => v@,
        }
    }
}

impl DynamicArray8 {
    pub open spec fn wf(self) -> bool {
        match self {
            DynamicArray8::Fixed(a, c) => c <= 8,
            DynamicArray8::Dynamic(v) => true,
        }
    }

    pub open spec fn is_fixed(self) -> bool {
        match self {
            DynamicArray8::Fixed(a, c) => true,
            DynamicArray8::Dynamic(v) => false,
        }
    }

    pub fn new() -> (r: Self)
        ensures
            r.wf(),
            r@ == Seq::<Entity>::empty(),
            r.is_fixed(),
    {
        let r = DynamicArray8::Fixed([0; 8], 0);
        proof {
            assert(r@ =~= Seq::<Entity>::empty());
        }
        r
    }

    pub fn with(element: Entity) -> (r: Self)
        ensures
            r.wf(),
            r@ == seq![element],
            r.is_fixed(),
    {
        let mut arr = Self::new();
        arr.push(element);
        proof {
            assert(arr@ =~= seq![element]);
        }
        arr
    }

    /// Append at the end, switching to heap storage at the ninth element.
    pub fn push(&mut self, element: Entity)
        requires
            old(self).wf(),
        ensures
            final(self).wf(),
            final(self)@ == old(self)@.push(element),
            final(self).is_fixed() == (old(self).is_fixed() && old(self)@.len() < 8),
    {
        match self {
            DynamicArray8::Fixed(array, count) => {
                if *count < 8 {
                    let c = *count as usize;
                    array[c] = element;
                    *count = *count + 1;
                    proof {
                        assert(self@ =~= old(self)@.push(element));
                    }
                } else {
                    // Switch to a dynamic array.
                    let mut vector: Vec<Entity> = Vec::new();
                    let mut i: usize = 0;
                    while i < 8
                        invariant
                            i <= 8,
                            vector@ == array@.take(i as int),
                        decreases 8 - i,
                    {
                        vector.push(array[i]);
                        i = i + 1;
                        proof {
                            assert(vector@ =~= array@.take(i as int));
                        }
                    }
                    vector.push(element);
                    proof {
                        assert(array@.take(8) =~= array@.take(*count as int));
                    }
                    *self = DynamicArray8::Dynamic(vector);
                    proof {
                        assert(self@ =~= old(self)@.push(element));
                    }
                }
            }
            DynamicArray8::Dynamic(vec) => {
                vec.push(element);
            }
        }
    }

    /// The position of the first occurrence of `e`, if any.
    fn find_index(&self, e: Entity) -> (r: Option<usize>)
        requires
            self.wf(),
        ensures
            match r {
                Option::Some(i) => i < self@.len() && find_first(self@, e, 0) == i,
                Option::None => find_first(self@, e, 0) == self@.len(),
            },
    {
        let items = self.iter();
        let mut i: usize = 0;
        let n = items.len();
        while i < n
            invariant
                items@ == self@,
                n == self@.len(),
                i <= n,
                find_first(self@, e, 0) == find_first(self@, e, i as int),
            decreases n - i,
        {
            if items[i] == e {
                proof {
                    assert(find_first(self@, e, i as int) == i);
                }
                return Some(i);
            }
            proof {
                assert(self@[i as int] != e);
                assert(find_first(self@, e, i as int) == find_first(self@, e, i as int + 1));
            }
            i = i + 1;
        }
        proof {
            assert(find_first(self@, e, 0) == self@.len());
        }
        None
    }

    /// Remove the first occurrence of `element`, if any. Inline storage
    /// swaps the last element into the hole; heap storage closes the hole
    /// and keeps the order.
    pub fn remove_element(&mut self, element: &Entity)
        requires
            old(self).wf(),
        ensures
            final(self).wf(),
            final(self).is_fixed() == old(self).is_fixed(),
            ({
                let s = old(self)@;
                let idx = find_first(s, *element, 0);
                if idx >= s.len() {
                    final(self)@ == s
                } else if old(self).is_fixed() {
                    final(self)@ == s.update(idx, s.last()).drop_last()
                } else {
                    final(self)@ == s.remove(idx)
                }
            }),
    {
        let ghost s = old(self)@;
        match self.find_index(*element) {
            None => {}
            Some(i) => {
                match self {
                    DynamicArray8::Fixed(array, count) => {
                        let c = *count as usize;
                        // Swap-remove with the last element.
                        let last = array[c - 1];
                        array[i] = last;
                        *count = *count - 1;
                    }
                    DynamicArray8::Dynamic(vec) => {
                        vec.remove(i);
                    }
                }
                proof {
                    if old(self).is_fixed() {
                        assert(s.last() == s[s.len() - 1]);
                        assert(self@ =~= s.update(i as int, s.last()).drop_last());
                    } else {
                        assert(self@ =~= s.remove(i as int));
                    }
                }
            }
        }
    }

    pub fn len(&self) -> (r: usize)
        requires
            self.wf(),
        ensures
            r == self@.len(),
    {
        match self {
            DynamicArray8::Fixed(_, count) => *count as usize,
            DynamicArray8::Dynamic(vec) => vec.len(),
        }
    }

    /// The elements in order, as a plain vector.
    pub fn iter(&self) -> (r: Vec<Entity>)
        requires
            self.wf(),
        ensures
            r@ == self@,
    {
        match self {
            DynamicArray8::Fixed(array, count) => {
                let c = *count as usize;
                let mut out: Vec<Entity> = Vec::new();
                let mut i: usize = 0;
                while i < c
                    invariant
                        i <= c,
                        c <= 8,
                        c == *count as usize,
                        out@ == array@.take(i as int),
                    decreases c - i,
                {
                    out.push(array[i]);
                    i = i + 1;
                    proof {
                        assert(out@ =~= array@.take(i as int));
                    }
                }
                out
            }
            DynamicArray8::Dynamic(vec) => {
                let mut out: Vec<Entity> = Vec::new();
                let mut i: usize = 0;
                let n = vec.len();
                while i < n
                    invariant
                        i <= n,
                        n == vec@.len(),
                        out@ == vec@.take(i as int),
                    decreases n - i,
                {
                    out.push(vec[i]);
                    i = i + 1;
                    proof {
                        assert(out@ =~= vec@.take(i as int));
                    }
                }
                proof {
                    assert(vec@.take(n as int) =~= vec@);
                }
                out
            }
        }
    }
}

} // verus!
