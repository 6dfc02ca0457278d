//! A borrowed or owned strided array of fixed rank `D`, and its model.
use crate::model::{
    dot, in_bounds, ints, last_index, lemma_dot_add, lemma_dot_mono,
    lemma_dot_prefix, lemma_dot_take, lemma_rank_last, lemma_row_major_rank, lemma_size_nonneg,
    lemma_size_pos, nonneg, row_major, size, unrank, zeros,
};
use vstd::prelude::*;

verus! {

/// What an array is, mathematically: a buffer, the offset of the element at
/// index zero, and one extent and one stride per axis.
pub struct ArrayModel<T> {
    pub data: Seq<T>,
    pub offset: int,
    pub shape: Seq<int>,
    pub strides: Seq<int>,
}

impl<T> ArrayModel<T> {
    /// Every in-bounds index tuple lands inside the buffer.
    pub open spec fn wf(self) -> bool {
        &&& self.shape.len() == self.strides.len()
        &&& nonneg(self.shape)
        &&& nonneg(self.strides)
        &&& self.offset >= 0
        &&& size(self.shape) > 0 ==> self.offset + dot(last_index(self.shape), self.strides)
            < self.data.len()
    }

    /// The element at an index tuple.
    pub open spec fn at(self, idx: Seq<int>) -> T {
        self.data[self.offset + dot(idx, self.strides)]
    }

    /// All elements in row-major order.
    pub open spec fn elements(self) -> Seq<T> {
        Seq::new(size(self.shape) as nat, |k: int| self.at(unrank(self.shape, k)))
    }

    /// The view restricted to `starts[i] .. ends[i]` on every axis `i`. A view
    /// with no elements keeps the offset it was taken from.
    pub open spec fn sub(self, starts: Seq<int>, ends: Seq<int>) -> ArrayModel<T> {
        let shape = Seq::new(self.shape.len(), |i: int| ends[i] - starts[i]);
        ArrayModel {
            data: self.data,
            offset: if size(shape) > 0 {
                self.offset + dot(starts, self.strides)
            } else {
                self.offset
            },
            shape,
            strides: self.strides,
        }
    }

    /// The view with `axis` fixed to `k` and every other axis whole.
    pub open spec fn slab(self, axis: int, k: int) -> ArrayModel<T> {
        self.sub(slab_starts(self.shape, axis, k), slab_ends(self.shape, axis, k))
    }

    /// The slabs along `axis`, in order of position.
    pub open spec fn slabs(self, axis: int) -> Seq<ArrayModel<T>> {
        Seq::new(self.shape[axis] as nat, |k: int| self.slab(axis, k))
    }
}

/// Where the slab at position `k` of `axis` starts on each axis.
pub open spec fn slab_starts(shape: Seq<int>, axis: int, k: int) -> Seq<int> {
    Seq::new(shape.len(), |i: int| if i == axis { k } else { 0 })
}

/// Where the slab at position `k` of `axis` ends on each axis.
pub open spec fn slab_ends(shape: Seq<int>, axis: int, k: int) -> Seq<int> {
    Seq::new(shape.len(), |i: int| if i == axis { k + 1 } else { shape[i] })
}

/// A half-open range `start .. end` of positions on one axis.
#[derive(Clone, Copy, PartialEq, Eq, Structural)]
pub struct AxisRange {
    pub start: usize,
    pub end: usize,
}

/// Each range lies within the extent of its axis.
pub open spec fn valid_ranges(ranges: Seq<AxisRange>, shape: Seq<int>) -> bool {
    &&& ranges.len() == shape.len()
    &&& forall|i: int|
        0 <= i < ranges.len() ==> #[trigger] ranges[i].start <= ranges[i].end <= shape[i]
}

pub open spec fn starts(ranges: Seq<AxisRange>) -> Seq<int> {
    ranges.map_values(|r: AxisRange| r.start as int)
}

pub open spec fn ends(ranges: Seq<AxisRange>) -> Seq<int> {
    ranges.map_values(|r: AxisRange| r.end as int)
}

enum Buffer<'a, T> {
    Owned(Vec<T>),
    Borrowed(&'a [T]),
}

impl<'a, T> Buffer<'a, T> {
    spec fn data(&self) -> Seq<T> {
        match self {
            Buffer::Owned(v) => v@,
            Buffer::Borrowed(s) => s@,
        }
    }
}

/// A strided array of rank `D` over an owned or a borrowed buffer.
pub struct Array<'a, T: Clone, const D: usize> {
    buffer: Buffer<'a, T>,
    offset: usize,
    shape: [usize; D],
    strides: [usize; D],
}

impl<'a, T: Clone, const D: usize> View for Array<'a, T, D> {
    type V = ArrayModel<T>;

    closed spec fn view(&self) -> ArrayModel<T> {
        ArrayModel {
            data: self.buffer.data(),
            offset: self.offset as int,
            shape: ints(self.shape@),
            strides: ints(self.strides@),
        }
    }
}

impl<'a, T: Clone, const D: usize> Array<'a, T, D> {
    pub open spec fn wf(&self) -> bool {
        &&& self@.wf()
        &&& self@.shape.len() == D
        &&& self@.data.len() <= usize::MAX
    }

    /// A contiguous row-major array over `data`. An array without elements
    /// gets zero strides.
    pub fn init(data: Vec<T>, shape: [usize; D]) -> (r: Self)
        requires
            data@.len() == size(ints(shape@)),
        ensures
            r.wf(),
            r@.data == data@,
            r@.offset == 0,
            r@.shape == ints(shape@),
            r@.strides == if size(ints(shape@)) > 0 {
                row_major(ints(shape@))
            } else {
                zeros(D as nat)
            },
    {
        let ghost s = ints(shape@);
        let mut strides = [0usize; D];
        if data.len() > 0 {
            proof {
                lemma_size_pos(s);
            }
            let mut acc: usize = 1;
            let mut i: usize = D;
            while i > 0
                invariant
                    i <= D,
                    s == ints(shape@),
                    shape@.len() == D,
                    size(s) > 0,
                    size(s) <= usize::MAX,
                    forall|j: int| 0 <= j < D ==> #[trigger] s[j] > 0,
                    acc as int == size(s.subrange(i as int, D as int)),
                    forall|j: int| i <= j < D ==> strides[j] as int == #[trigger] row_major(s)[j],
                decreases i,
            {
                strides[i - 1] = acc;
                proof {
                    let lo = s.subrange(i - 1, D as int);
                    assert(lo.drop_first() =~= s.subrange(i as int, D as int));
                    crate::model::lemma_size_split(s.subrange(0, i - 1), lo);
                    assert(s.subrange(0, i - 1) + lo =~= s);
                    assert forall|j: int| 0 <= j < i - 1 implies #[trigger] s.subrange(
                        0,
                        i - 1,
                    )[j] > 0 by {}
                    lemma_size_pos(s.subrange(0, i - 1));
                    assert(size(lo) == lo[0] * size(lo.drop_first()));
                    assert(lo[0] == shape[i - 1] as int);
                    lemma_size_nonneg(lo);
                    let a = size(s.subrange(0, i - 1));
                    let b = size(lo);
                    assert(b <= a * b) by (nonlinear_arith)
                        requires
                            a >= 1,
                            b >= 0,
                    ;
                }
                acc = acc * shape[i - 1];
                i -= 1;
            }
            proof {
                assert(ints(strides@) =~= row_major(s));
            }
        } else {
            proof {
                assert(ints(strides@) =~= zeros(D as nat));
            }
        }
        let r = Array { buffer: Buffer::Owned(data), offset: 0, shape, strides };
        proof {
            assert(r@.shape =~= s);
            if size(s) > 0 {
                lemma_size_pos(s);
                lemma_row_major_rank(s, last_index(s));
                lemma_rank_last(s);
            }
        }
        r
    }

    pub fn shape(&self) -> (r: &[usize; D])
        ensures
            ints(r@) == self@.shape,
    {
        &self.shape
    }

    pub fn strides(&self) -> (r: &[usize; D])
        ensures
            ints(r@) == self@.strides,
    {
        &self.strides
    }

    fn elements(&self) -> (r: &[T])
        ensures
            r@ == self@.data,
    {
        match &self.buffer {
            Buffer::Owned(v) => v.as_slice(),
            Buffer::Borrowed(s) => *s,
        }
    }

    /// The element at `indices`, or `None` when an index is out of range for
    /// its axis.
    pub fn get(&self, indices: [usize; D]) -> (r: Option<&T>)
        requires
            self.wf(),
        ensures
            match r {
                Some(v) => in_bounds(self@.shape, ints(indices@)) && *v == self@.at(ints(indices@)),
                None => !in_bounds(self@.shape, ints(indices@)),
            },
    {
        let ghost x = ints(indices@);
        let ghost m = self@;
        let mut i: usize = 0;
        while i < D
            invariant
                i <= D,
                m == self@,
                x == ints(indices@),
                forall|j: int| 0 <= j < i ==> #[trigger] indices[j] < self.shape[j],
            decreases D - i,
        {
            if indices[i] >= self.shape[i] {
                proof {
                    assert(x[i as int] >= m.shape[i as int]);
                }
                return None;
            }
            i += 1;
        }
        proof {
            assert(in_bounds(m.shape, x));
            assert forall|j: int| 0 <= j < D implies #[trigger] m.shape[j] > 0 by {
                assert(x[j] < m.shape[j]);
            }
            lemma_size_pos(m.shape);
            lemma_dot_mono(x, last_index(m.shape), m.strides);
        }
        let mut pos: usize = self.offset;
        let mut i: usize = 0;
        while i < D
            invariant
                i <= D,
                m == self@,
                m.wf(),
                m.shape.len() == D,
                x == ints(indices@),
                in_bounds(m.shape, x),
                m.offset + dot(x, m.strides) < m.data.len() <= usize::MAX,
                pos as int == m.offset + dot(x.take(i as int), m.strides.take(i as int)),
            decreases D - i,
        {
            proof {
                lemma_dot_take(x, m.strides, i as int);
                lemma_dot_prefix(x, m.strides, i as int + 1);
                assert(m.strides[i as int] == self.strides[i as int] as int);
                assert(x[i as int] == indices[i as int] as int);
            }
            pos = pos + indices[i] * self.strides[i];
            i += 1;
        }
        proof {
            assert(x.take(D as int) =~= x);
            assert(m.strides.take(D as int) =~= m.strides);
        }
        let elems = self.elements();
        Some(&elems[pos])
    }

    /// The view restricted to `ranges[i]` on every axis `i`; it borrows this
    /// array's buffer.
    pub fn slice(&self, ranges: &[AxisRange; D]) -> (r: Array<'_, T, D>)
        requires
            self.wf(),
            valid_ranges(ranges@, self@.shape),
        ensures
            r.wf(),
            r@ == self@.sub(starts(ranges@), ends(ranges@)),
    {
        let ghost m = self@;
        let ghost lo = starts(ranges@);
        let ghost hi = ends(ranges@);
        let ghost want = m.sub(lo, hi);
        let mut shape = [0usize; D];
        let mut nonempty = true;
        let mut i: usize = 0;
        while i < D
            invariant
                i <= D,
                m == self@,
                m.shape.len() == D,
                valid_ranges(ranges@, m.shape),
                forall|j: int|
                    0 <= j < i ==> #[trigger] shape[j] as int == ranges[j].end - ranges[j].start,
                nonempty == (forall|j: int| 0 <= j < i ==> #[trigger] ranges[j].start < ranges[j].end),
            decreases D - i,
        {
            shape[i] = ranges[i].end - ranges[i].start;
            if ranges[i].start == ranges[i].end {
                nonempty = false;
                proof {
                    assert(!(ranges[i as int].start < ranges[i as int].end));
                }
            }
            i += 1;
        }
        proof {
            assert(ints(shape@) =~= want.shape);
            assert forall|j: int| 0 <= j < D implies 0 <= #[trigger] want.shape[j] by {}
            lemma_size_pos(want.shape);
            if nonempty {
                assert forall|j: int| 0 <= j < D implies #[trigger] want.shape[j] > 0 by {
                    assert(ranges[j].start < ranges[j].end);
                }
            } else {
                let j = choose|j: int| 0 <= j < D && !(#[trigger] ranges[j].start < ranges[j].end);
                assert(want.shape[j] == 0);
            }
            assert(nonempty == (size(want.shape) > 0));
        }
        let mut offset: usize = self.offset;
        if nonempty {
            proof {
                assert forall|j: int| 0 <= j < D implies #[trigger] m.shape[j] > 0 by {
                    assert(want.shape[j] > 0);
                }
                lemma_size_pos(m.shape);
                assert forall|j: int| 0 <= j < D implies 0 <= #[trigger] lo[j] <= last_index(
                    m.shape,
                )[j] by {
                    assert(want.shape[j] > 0);
                }
                lemma_dot_mono(lo, last_index(m.shape), m.strides);
                assert(nonneg(lo));
            }
            let mut i: usize = 0;
            while i < D
                invariant
                    i <= D,
                    m == self@,
                    m.wf(),
                    m.shape.len() == D,
                    lo == starts(ranges@),
                    nonneg(lo),
                    m.offset + dot(lo, m.strides) < m.data.len() <= usize::MAX,
                    offset as int == m.offset + dot(lo.take(i as int), m.strides.take(i as int)),
                decreases D - i,
            {
                proof {
                    lemma_dot_take(lo, m.strides, i as int);
                    lemma_dot_prefix(lo, m.strides, i as int + 1);
                    assert(m.strides[i as int] == self.strides[i as int] as int);
                }
                offset = offset + ranges[i].start * self.strides[i];
                i += 1;
            }
            proof {
                assert(lo.take(D as int) =~= lo);
                assert(m.strides.take(D as int) =~= m.strides);
                let d = Seq::new(D as nat, |j: int| want.shape[j] - 1);
                assert(last_index(want.shape) =~= d);
                lemma_dot_add(lo, d, m.strides);
                let e = Seq::new(D as nat, |j: int| lo[j] + d[j]);
                assert forall|j: int| 0 <= j < D implies 0 <= #[trigger] e[j] <= last_index(
                    m.shape,
                )[j] by {
                    assert(want.shape[j] > 0);
                }
                lemma_dot_mono(e, last_index(m.shape), m.strides);
            }
        }
        let r = Array {
            buffer: Buffer::Borrowed(self.elements()),
            offset,
            shape,
            strides: self.strides,
        };
        proof {
            assert(r@.shape =~= want.shape);
            assert(r@.data == want.data);
            assert(r@.strides == want.strides);
            assert(r@.offset == want.offset);
        }
        r
    }
}

} // verus!
