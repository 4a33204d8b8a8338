use vstd::prelude::*;

verus! {

/// A sequence of vertex indices.
#[derive(Clone, Debug)]
pub struct Path(pub Vec<usize>);

impl View for Path {
    type V = Seq<usize>;

    open spec fn view(&self) -> Seq<usize> {
        self.0@
    }
}

impl Path {
    pub fn new(indices: Vec<usize>) -> (r: Path)
        ensures
            r@ == indices@,
    {
        Path(indices)
    }

    pub fn len(&self) -> (r: usize)
        ensures
            r == self@.len(),
    {
        self.0.len()
    }

    /// An empty path with room for `cap` vertices.
    pub fn with_capacity(cap: usize) -> (r: Path)
        ensures
            r@ == Seq::<usize>::empty(),
    {
        Path(Vec::with_capacity(cap))
    }

    /// The vertices in order.
    pub fn iter(&self) -> (r: Vec<usize>)
        ensures
            r@ == self@,
    {
        self.0.clone()
    }

    pub fn push(&mut self, node_index: usize)
        ensures
            final(self)@ == old(self)@.push(node_index),
    {
        self.0.push(node_index);
    }

    /// Inserts `node_index` at position `index`.
    pub fn insert(&mut self, index: usize, node_index: usize)
        requires
            index <= old(self)@.len(),
        ensures
            final(self)@ == old(self)@.insert(index as int, node_index),
    {
        self.0.insert(index, node_index);
    }

    /// The vertices at positions `start..end`.
    pub fn slice(&self, start: usize, end: usize) -> (r: Path)
        requires
            start <= end <= self@.len(),
        ensures
            r@ == self@.subrange(start as int, end as int),
    {
        let mut v: Vec<usize> = Vec::new();
        let mut k = start;
        while k < end
            invariant
                start <= k <= end <= self@.len(),
                v@ == self@.subrange(start as int, k as int),
            decreases end - k,
        {
            v.push(self.0[k]);
            k += 1;
            assert(v@ =~= self@.subrange(start as int, k as int));
        }
        Path(v)
    }

    /// The vertices at positions `start..end`, taking the path.
    pub fn into_slice(self, start: usize, end: usize) -> (r: Path)
        requires
            start <= end <= self@.len(),
        ensures
            r@ == self@.subrange(start as int, end as int),
    {
        self.slice(start, end)
    }

    /// The path in reverse order.
    pub fn rev(self) -> (r: Path)
        ensures
            r@ == self@.reverse(),
    {
        let mut v: Vec<usize> = Vec::new();
        let mut k = self.0.len();
        while k > 0
            invariant
                k <= self@.len(),
                v@ == self@.subrange(k as int, self@.len() as int).reverse(),
            decreases k,
        {
            k -= 1;
            v.push(self.0[k]);
            assert(v@ =~= self@.subrange(k as int, self@.len() as int).reverse());
        }
        assert(self@.subrange(0, self@.len() as int) =~= self@);
        Path(v)
    }

    /// This path followed by `rhs`.
    pub fn concat(self, rhs: &Path) -> (r: Path)
        ensures
            r@ == self@ + rhs@,
    {
        let mut v = self.0;
        let ghost start = v@;
        let mut k: usize = 0;
        while k < rhs.0.len()
            invariant
                k <= rhs@.len(),
                v@ == start + rhs@.take(k as int),
            decreases rhs@.len() - k,
        {
            v.push(rhs.0[k]);
            k += 1;
            assert(v@ =~= start + rhs@.take(k as int));
        }
        assert(rhs@.take(k as int) =~= rhs@);
        Path(v)
    }

    /// Exchanges the vertices at positions `i` and `j`.
    pub fn swap(&mut self, i: usize, j: usize)
        requires
            i < old(self)@.len(),
            j < old(self)@.len(),
        ensures
            final(self)@ == old(self)@.update(i as int, old(self)@[j as int]).update(j as int, old(self)@[i as int]),
    {
        crate::util::swap_at(&mut self.0, i, j);
    }

    /// The path rotated left by `mid`: position `k` holds the vertex that
    /// stood at `(k + mid) mod len`.
    pub fn rotate_left(&mut self, mid: usize)
        requires
            mid <= old(self)@.len(),
        ensures
            final(self)@ == old(self)@.subrange(mid as int, old(self)@.len() as int) + old(self)@.subrange(0, mid as int),
    {
        let tail = self.slice(mid, self.0.len());
        let head = self.slice(0, mid);
        *self = tail.concat(&head);
    }
}

} // verus!
