use vstd::prelude::*;

verus! {

/// Where one record lies in a buffer: the offset of its header byte and the
/// offsets of the line ends found so far after it, in increasing order.
///
/// The last offset of a complete record is either a newline that is followed
/// by the next header, or the end of the input.
#[derive(Clone, Debug)]
pub struct BufferPosition {
    pub position: usize,
    pub sequence_position: Vec<usize>,
}

impl BufferPosition {
    /// True while no line end of the record has been found yet.
    pub fn is_new(&self) -> (r: bool)
        ensures
            r == (self.sequence_position@.len() == 0),
    {
        self.sequence_position.len() == 0
    }

    /// Starts a new record at `position`.
    pub fn reset(&mut self, position: usize)
        ensures
            final(self).position == position,
            final(self).sequence_position@ == Seq::<usize>::empty(),
    {
        self.sequence_position.clear();
        self.position = position;
    }

    /// Makes this position a copy of `other`, reusing the allocation.
    pub fn update(&mut self, other: &Self)
        ensures
            final(self).position == other.position,
            final(self).sequence_position@ == other.sequence_position@,
    {
        self.position = other.position;
        self.sequence_position.clear();
        let n = other.sequence_position.len();
        let mut i: usize = 0;
        while i < n
            invariant
                n == other.sequence_position@.len(),
                self.position == other.position,
                i <= n,
                self.sequence_position@ == other.sequence_position@.take(i as int),
            decreases n - i,
        {
            self.sequence_position.push(other.sequence_position[i]);
            assert(other.sequence_position@.take(i as int).push(other.sequence_position@[i as int])
                =~= other.sequence_position@.take(i as int + 1));
            i += 1;
        }
        assert(other.sequence_position@.take(n as int) =~= other.sequence_position@);
    }
}

} // verus!
