//! Geometry of the shared-memory pool that holds two frames: the size of
//! one frame, a pending resize, and where each frame lies in the pool.

use vstd::prelude::*;

use crate::output::Output;

verus! {

/// The frame size of the pool and the output size it should change to.
#[derive(Debug)]
pub struct Buffer {
    current_size: usize,
    pending_resize: Option<Output>,
}

impl Buffer {
    /// The size in bytes of one frame.
    pub closed spec fn frame_size(&self) -> usize {
        self.current_size
    }

    /// The output size to change to, if any.
    pub closed spec fn pending(&self) -> Option<Output> {
        self.pending_resize
    }

    /// A pool for frames of the given output; the pool itself holds two
    /// frames.
    pub fn new(output: &Output) -> (b: Self)
        requires
            output.buffer_size_spec() * 2 <= u32::MAX,
        ensures
            b.frame_size() == output.buffer_size_spec(),
            b.pending() is None,
    {
        Self { current_size: output.get_buffer_size() as usize, pending_resize: None }
    }

    /// Whether a resize waits to be applied.
    pub fn has_pending_resize(&self) -> (b: bool)
        ensures
            b == self.pending() is Some,
    {
        self.pending_resize.is_some()
    }

    /// The output size a resize waits for, if any.
    pub fn pending_resize(&self) -> (o: Option<&Output>)
        ensures
            o == match self.pending() {
                Some(p) => Some(&p),
                None => None::<&Output>,
            },
    {
        match &self.pending_resize {
            Some(p) => Some(p),
            None => None,
        }
    }

    /// Records a new output size, unless a frame of it has the current
    /// frame size.
    pub fn set_pending_resize(&mut self, new_output: Output)
        requires
            new_output.buffer_size_spec() <= u32::MAX,
        ensures
            final(self).frame_size() == old(self).frame_size(),
            new_output.buffer_size_spec() != old(self).frame_size() ==> final(self).pending() == Some(
                new_output,
            ),
            new_output.buffer_size_spec() == old(self).frame_size() ==> final(self).pending() == old(
                self,
            ).pending(),
    {
        if new_output.get_buffer_size() as usize != self.current_size {
            self.pending_resize = Some(new_output);
        }
    }

    /// Takes the pending resize: the frame size becomes twice the frame of
    /// the new output, and the returned pool size, twice that again, is what
    /// the caller reallocates. `None` when no resize was pending.
    pub fn apply_pending_resize(&mut self) -> (pool_size: Option<u32>)
        requires
            old(self).pending() matches Some(p) ==> p.buffer_size_spec() * 4 <= u32::MAX,
        ensures
            match old(self).pending() {
                Some(p) => {
                    &&& pool_size == Some((p.buffer_size_spec() * 4) as u32)
                    &&& final(self).frame_size() == p.buffer_size_spec() * 2
                    &&& final(self).pending() is None
                },
                None => pool_size is None && *final(self) == *old(self),
            },
    {
        let pending = match self.pending_resize.take() {
            Some(p) => p,
            None => return None,
        };
        let size = pending.get_buffer_size() * 2;
        let pool_size = size * 2;
        self.current_size = size as usize;
        Some(pool_size)
    }

    /// The byte range in the pool of the frame drawn at step `frame`: frames
    /// alternate between the two halves.
    pub fn get_buffer(&self, frame: usize) -> (range: (usize, usize))
        requires
            2 * self.frame_size() <= usize::MAX,
        ensures
            range.0 == (frame % 2) * self.frame_size(),
            range.1 == range.0 + self.frame_size(),
    {
        let half = frame % 2;
        proof {
            let cs = self.current_size;
            assert(half * cs <= cs) by (nonlinear_arith)
                requires
                    half <= 1,
            ;
        }
        let offset = half * self.current_size;
        (offset, offset + self.current_size)
    }
}

} // verus!
