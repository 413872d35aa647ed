use vstd::prelude::*;

verus! {

/// Two scratch buffers that a chain of transformation steps alternates between, starting from a
/// read-only source: each step reads the current data and writes the next into the other buffer.
pub enum AlternatingBuffers<'a> {
    /// No step yet: the data is `initial_data`; the first step writes `tmp_buf1`.
    Init { initial_data: &'a [u8], tmp_buf1: &'a mut [u8], tmp_buf2: &'a mut [u8] },
    /// The data is `main_buf`; the next step writes `secondary_buf`.
    Alternating { main_buf: &'a mut [u8], secondary_buf: &'a mut [u8] },
}

impl<'a> AlternatingBuffers<'a> {
    /// The current data.
    pub open spec fn current(&self) -> Seq<u8> {
        match self {
            AlternatingBuffers::Init { initial_data, .. } => initial_data@,
            AlternatingBuffers::Alternating { main_buf, .. } => main_buf@,
        }
    }

    /// The buffer the next step writes.
    pub open spec fn next_target(&self) -> Seq<u8> {
        match self {
            AlternatingBuffers::Init { tmp_buf1, .. } => tmp_buf1@,
            AlternatingBuffers::Alternating { secondary_buf, .. } => secondary_buf@,
        }
    }

    /// The buffer written the step after next.
    pub open spec fn spare(&self) -> Seq<u8> {
        match self {
            AlternatingBuffers::Init { tmp_buf2, .. } => tmp_buf2@,
            AlternatingBuffers::Alternating { main_buf, .. } => main_buf@,
        }
    }

    /// Starts from the read-only `data`, with the two scratch buffers.
    pub fn with_const_src(data: &'a [u8], tmp_buf1: &'a mut [u8], tmp_buf2: &'a mut [u8]) -> (r:
        Self)
        ensures
            r is Init,
            r.current() == data@,
            r.next_target() == old(tmp_buf1)@,
            r.spare() == old(tmp_buf2)@,
    {
        AlternatingBuffers::Init { initial_data: data, tmp_buf1, tmp_buf2 }
    }

    /// Starts from the data in `main_buf`, writing the next step into `secondary_buf`.
    pub fn new(main_buf: &'a mut [u8], secondary_buf: &'a mut [u8]) -> (r: Self)
        ensures
            r is Alternating,
            r.current() == old(main_buf)@,
            r.next_target() == old(secondary_buf)@,
    {
        AlternatingBuffers::Alternating { main_buf, secondary_buf }
    }

    /// The current data: the source before any step, else the output of the latest step.
    pub fn data(&self) -> (r: &[u8])
        ensures
            r@ == self.current(),
    {
        match self {
            AlternatingBuffers::Init { initial_data, .. } => *initial_data,
            AlternatingBuffers::Alternating { main_buf, .. } => &**main_buf,
        }
    }

    /// The current data, for the lifetime of the buffers.
    pub fn into_data(self) -> (r: &'a [u8])
        ensures
            r@ == self.current(),
    {
        match self {
            AlternatingBuffers::Init { initial_data, .. } => initial_data,
            AlternatingBuffers::Alternating { main_buf, .. } => main_buf,
        }
    }

    /// Starts the next step: returns `(src, dst)`, the current data and the buffer to write the
    /// step's output into, which becomes the current data.
    pub fn edit(&mut self) -> (r: (&[u8], &mut [u8]))
        ensures
            r.0@ == old(self).current(),
            r.1@ == old(self).next_target(),
            *final(self) is Alternating,
            final(self).current() == final(r.1)@,
            final(self).next_target() == if *old(self) is Init {
                old(self).spare()
            } else {
                old(self).current()
            },
    {
        match self {
            AlternatingBuffers::Alternating { main_buf, secondary_buf } => {
                std::mem::swap(main_buf, secondary_buf);
                (&**secondary_buf, &mut **main_buf)
            },
            AlternatingBuffers::Init { initial_data, tmp_buf1, tmp_buf2 } => {
                let data: &'a [u8] = *initial_data;
                let mut main: &'a mut [u8] = &mut [];
                let mut secondary: &'a mut [u8] = &mut [];
                std::mem::swap(&mut main, tmp_buf1);
                std::mem::swap(&mut secondary, tmp_buf2);
                *self = AlternatingBuffers::Alternating { main_buf: main, secondary_buf: secondary };
                match self {
                    AlternatingBuffers::Alternating { main_buf, .. } => (data, &mut **main_buf),
                    AlternatingBuffers::Init { .. } => vstd::pervasive::unreached(),
                }
            },
        }
    }
}

} // verus!
