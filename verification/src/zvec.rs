use std::collections::VecDeque;
use vstd::prelude::*;

verus! {

/// `VecDeque::get_mut`: a mutable reference to the element at `i`, if `i` is in bounds.
/// The contract claims what std documents: `Some` exactly for an index below the length, the
/// reference pointing at that element, and nothing else of the deque changing.
#[verifier::external_body]
fn deque_get_mut<T>(d: &mut VecDeque<T>, i: usize) -> (r: Option<&mut T>)
    ensures
        (i < old(d)@.len()) == (r is Some),
        r is None ==> final(d)@ == old(d)@,
        r matches Some(x) ==> *x == old(d)@[i as int] && final(d)@ == old(d)@.update(
            i as int,
            *final(x),
        ),
{
    d.get_mut(i)
}

/// Vector whose index is a continuous interval of the integers (Z)
#[derive(Debug, Clone)]
pub struct ZVec<T> {
    pub data: VecDeque<T>,
    minimum: isize,
    maximum: isize,
}

/// `new` is `old` after moving its lower end from `old_min` to `new_min`: clones of `value` are
/// put in front when the range grows, elements are taken from the front when it shrinks.
pub open spec fn resized_front<T: Clone>(
    old: Seq<T>,
    old_min: int,
    new_min: int,
    value: T,
    new: Seq<T>,
) -> bool {
    if new_min < old_min {
        &&& new.len() == old.len() + (old_min - new_min)
        &&& forall|j: int| 0 <= j < old_min - new_min ==> cloned(value, #[trigger] new[j])
        &&& new.skip(old_min - new_min) == old
    } else {
        new == old.skip(if new_min - old_min <= old.len() {
            new_min - old_min
        } else {
            old.len() as int
        })
    }
}

/// `new` is `old` after moving its upper end from `old_max` to `new_max`: clones of `value` are
/// put at the back when the range grows, elements are taken from the back when it shrinks.
pub open spec fn resized_back<T: Clone>(
    old: Seq<T>,
    old_max: int,
    new_max: int,
    value: T,
    new: Seq<T>,
) -> bool {
    if new_max > old_max {
        &&& new.len() == old.len() + (new_max - old_max)
        &&& forall|j: int| old.len() <= j < new.len() ==> cloned(value, #[trigger] new[j])
        &&& new.take(old.len() as int) == old
    } else {
        new == old.take(if old_max - new_max <= old.len() {
            old.len() - (old_max - new_max)
        } else {
            0
        })
    }
}

impl<T> View for ZVec<T> {
    type V = Seq<T>;

    /// The elements, from the lowest index up.
    closed spec fn view(&self) -> Seq<T> {
        self.data@
    }
}

impl<T: Clone> ZVec<T> {
    /// Lowest index.
    pub closed spec fn spec_min(&self) -> int {
        self.minimum as int
    }

    /// Highest index.
    pub closed spec fn spec_max(&self) -> int {
        self.maximum as int
    }

    /// The data covers exactly the indices `spec_min()..=spec_max()`.
    pub open spec fn wf(&self) -> bool {
        self@.len() == self.spec_max() - self.spec_min() + 1
    }

    /// Is `index` one of the indices of the vector?
    pub open spec fn in_range(&self, index: int) -> bool {
        self.spec_min() <= index <= self.spec_max()
    }

    /// The element at `index`.
    pub open spec fn at(&self, index: int) -> T {
        self@[index - self.spec_min()]
    }

    pub fn new(data: VecDeque<T>, minimum: isize) -> (z: Self)
        requires
            data@.len() <= isize::MAX,
            minimum + data@.len() <= isize::MAX,
            minimum + data@.len() - 1 >= isize::MIN,
        ensures
            z@ == data@,
            z.spec_min() == minimum,
            z.spec_max() == minimum + data@.len() - 1,
            z.wf(),
    {
        let data_length = data.len();
        Self {
            data,
            minimum,
            maximum: minimum + data_length as isize - 1,  // we have data.len() = max - min + 1
        }
    }

    pub fn get(&self, index: isize) -> (r: Option<T>)
        requires
            self.wf(),
        ensures
            r is Some <==> self.in_range(index as int),
            r matches Some(x) ==> cloned(self.at(index as int), x),
    {
        if index > self.maximum || index < self.minimum {
            None
        } else {
            Some(self.data[(index as i128 - self.minimum as i128) as usize].clone())
        }
    }

    /// A reference to the element at `index`, if `index` is one of the indices.
    pub fn get_ref(&self, index: isize) -> (r: Option<&T>)
        requires
            self.wf(),
        ensures
            r is Some <==> self.in_range(index as int),
            r matches Some(x) ==> *x == self.at(index as int),
    {
        if index > self.maximum || index < self.minimum {
            None
        } else {
            Some(&self.data[(index as i128 - self.minimum as i128) as usize])
        }
    }

    pub fn get_mut(&mut self, index: isize) -> (r: Option<&mut T>)
        ensures
            r is Some <==> (old(self).in_range(index as int) && index - old(self).spec_min()
                < old(self)@.len()),
            final(self).spec_min() == old(self).spec_min(),
            final(self).spec_max() == old(self).spec_max(),
            r is None ==> final(self)@ == old(self)@,
            r matches Some(x) ==> *x == old(self).at(index as int) && final(self)@ == old(
                self,
            )@.update(index - old(self).spec_min(), *final(x)),
    {
        if index < self.minimum || index > self.maximum {
            None
        } else {
            deque_get_mut(&mut self.data, (index as i128 - self.minimum as i128) as usize)
        }
    }

    pub fn set(&mut self, index: isize, value: T)
        requires
            old(self).spec_min() <= index,
            index - old(self).spec_min() < old(self)@.len(),
        ensures
            final(self).spec_min() == old(self).spec_min(),
            final(self).spec_max() == old(self).spec_max(),
            final(self)@ == old(self)@.update(index - old(self).spec_min(), value),
    {
        let i = (index as i128 - self.minimum as i128) as usize;
        match deque_get_mut(&mut self.data, i) {
            Some(x) => {
                *x = value;
            },
            None => {},
        }
    }

    fn resize_min_from(&mut self, new_min: isize, value: &T)
        ensures
            final(self).spec_min() == new_min,
            final(self).spec_max() == old(self).spec_max(),
            resized_front(old(self)@, old(self).spec_min(), new_min as int, *value, final(self)@),
    {
        let ghost start = self.data@;
        if new_min < self.minimum {
            let mut m = self.minimum;
            while m > new_min
                invariant
                    new_min <= m <= self.minimum,
                    self.spec_max() == old(self).spec_max(),
                    self.spec_min() == old(self).spec_min(),
                    self.data@.len() == start.len() + (self.minimum - m),
                    forall|j: int| 0 <= j < self.minimum - m ==> cloned(*value, #[trigger] self.data@[j]),
                    self.data@.skip(self.minimum - m) == start,
                decreases m - new_min,
            {
                let c = value.clone();
                let ghost before = self.data@;
                self.data.push_front(c);
                assert(self.data@.skip(self.minimum - (m - 1)) =~= before.skip(self.minimum - m));
                m = m - 1;
            }
        } else if new_min > self.minimum {
            let mut m = self.minimum;
            while m < new_min
                invariant
                    self.minimum <= m <= new_min,
                    self.spec_max() == old(self).spec_max(),
                    self.spec_min() == old(self).spec_min(),
                    self.data@ == start.skip(
                        if m - self.minimum <= start.len() {
                            m - self.minimum
                        } else {
                            start.len() as int
                        },
                    ),
                decreases new_min - m,
            {
                self.data.pop_front();
                proof {
                    if m - self.minimum < start.len() {
                        assert(self.data@ =~= start.skip(m + 1 - self.minimum));
                    } else {
                        assert(self.data@ =~= start.skip(start.len() as int));
                    }
                }
                m = m + 1;
            }
        } else {
            assert(start.skip(0) =~= start);
        }
        self.minimum = new_min;
    }

    fn resize_max_from(&mut self, new_max: isize, value: &T)
        ensures
            final(self).spec_min() == old(self).spec_min(),
            final(self).spec_max() == new_max,
            resized_back(old(self)@, old(self).spec_max(), new_max as int, *value, final(self)@),
    {
        let ghost start = self.data@;
        if new_max > self.maximum {
            let mut m = self.maximum;
            while m < new_max
                invariant
                    self.maximum <= m <= new_max,
                    self.spec_max() == old(self).spec_max(),
                    self.spec_min() == old(self).spec_min(),
                    self.data@.len() == start.len() + (m - self.maximum),
                    forall|j: int|
                        start.len() <= j < self.data@.len() ==> cloned(*value, #[trigger] self.data@[j]),
                    self.data@.take(start.len() as int) == start,
                decreases new_max - m,
            {
                let c = value.clone();
                let ghost before = self.data@;
                self.data.push_back(c);
                assert(self.data@.take(start.len() as int) =~= before.take(start.len() as int));
                m = m + 1;
            }
        } else if new_max < self.maximum {
            let mut m = self.maximum;
            while m > new_max
                invariant
                    new_max <= m <= self.maximum,
                    self.spec_max() == old(self).spec_max(),
                    self.spec_min() == old(self).spec_min(),
                    self.data@ == start.take(
                        if self.maximum - m <= start.len() {
                            start.len() - (self.maximum - m)
                        } else {
                            0
                        },
                    ),
                decreases m - new_max,
            {
                self.data.pop_back();
                proof {
                    if self.maximum - m < start.len() {
                        assert(self.data@ =~= start.take(start.len() - (self.maximum - m + 1)));
                    } else {
                        assert(self.data@ =~= start.take(0));
                    }
                }
                m = m - 1;
            }
        } else {
            assert(start.take(start.len() as int) =~= start);
        }
        self.maximum = new_max;
    }

    /// Resize the ZVec so that new_min is the new minimum, removing data or filling with the default as necessary
    pub fn resize_with_min(&mut self, new_min: isize, value: T)
        ensures
            final(self).spec_min() == new_min,
            final(self).spec_max() == old(self).spec_max(),
            resized_front(
                old(self)@,
                old(self).spec_min(),
                new_min as int,
                value,
                final(self)@,
            ),
    {
        self.resize_min_from(new_min, &value);
    }

    /// Resize the ZVec so that new_max is the new maximum, removing data or filling with the default as necessary
    pub fn resize_with_max(&mut self, new_max: isize, value: T)
        ensures
            final(self).spec_min() == old(self).spec_min(),
            final(self).spec_max() == new_max,
            resized_back(
                old(self)@,
                old(self).spec_max(),
                new_max as int,
                value,
                final(self)@,
            ),
    {
        self.resize_max_from(new_max, &value);
    }

    /// Resize the ZVec to the new range, removing data or filling with the default as necessary
    pub fn resize(&mut self, new_min: isize, new_max: isize, default: T)
        ensures
            final(self).spec_min() == new_min,
            final(self).spec_max() == new_max,
            exists|mid: Seq<T>|
                resized_front(old(self)@, old(self).spec_min(), new_min as int, default, mid)
                    && resized_back(
                    mid,
                    old(self).spec_max(),
                    new_max as int,
                    default,
                    final(self)@,
                ),
    {
        self.resize_min_from(new_min, &default);
        let ghost mid = self@;
        self.resize_max_from(new_max, &default);
        assert(resized_front(old(self)@, old(self).spec_min(), new_min as int, default, mid));
    }

    pub fn get_minimum(&self) -> (m: isize)
        ensures
            m == self.spec_min(),
    {
        self.minimum
    }

    pub fn get_maximum(&self) -> (m: isize)
        ensures
            m == self.spec_max(),
    {
        self.maximum
    }
}

/// Resizing keeps the element at every index that lies in both the old and the new range, and
/// fills every index of the new range outside the old one with a clone of the default, as long
/// as the new range starts at most one past the old end and is not reversed by more than one.
pub proof fn lemma_resize_keeps_overlap<T: Clone>(
    old: Seq<T>,
    old_min: int,
    old_max: int,
    new_min: int,
    new_max: int,
    default: T,
    mid: Seq<T>,
    new: Seq<T>,
)
    requires
        old.len() == old_max - old_min + 1,
        new_min <= old_max + 1,
        new_min <= new_max + 1,
        resized_front(old, old_min, new_min, default, mid),
        resized_back(mid, old_max, new_max, default, new),
    ensures
        new.len() == new_max - new_min + 1,
        forall|i: int|
            new_min <= i <= new_max && old_min <= i <= old_max ==> #[trigger] new[i - new_min] == old[i
                - old_min],
        forall|i: int|
            new_min <= i <= new_max && !(old_min <= i <= old_max) ==> cloned(
                default,
                #[trigger] new[i - new_min],
            ),
{
    assert(mid.len() == old_max - new_min + 1);
    assert forall|i: int| new_min <= i <= old_max implies (#[trigger] mid[i - new_min] == old[i
        - old_min] || (i < old_min && cloned(default, mid[i - new_min]))) && (old_min <= i ==> mid[i
        - new_min] == old[i - old_min]) && (i < old_min ==> cloned(default, mid[i - new_min])) by {
        if new_min < old_min {
            if i >= old_min {
                assert(mid.skip(old_min - new_min)[i - old_min] == mid[i - new_min]);
            }
        } else {
            assert(old.skip(new_min - old_min)[i - new_min] == old[i - old_min]);
        }
    }
    assert forall|i: int| new_min <= i <= new_max && i <= old_max implies #[trigger] new[i
        - new_min] == mid[i - new_min] by {
        if new_max > old_max {
            assert(new.take(mid.len() as int)[i - new_min] == new[i - new_min]);
        }
    }
}

} // verus!
