//! A circular buffer that always holds the latest `BLOCK_SIZE` samples of a
//! stream. There is no read index: a read returns the whole block, oldest
//! sample first.

use vstd::prelude::*;

use crate::BLOCK_SIZE;

verus! {

/// The last `BLOCK_SIZE` elements of `s`.
pub open spec fn last_block<T>(s: Seq<T>) -> Seq<T>
    recommends
        s.len() >= BLOCK_SIZE,
{
    s.subrange(s.len() - BLOCK_SIZE, s.len() as int)
}

/// A block made of `BLOCK_SIZE` copies of `v`.
pub open spec fn constant_block<T>(v: T) -> Seq<T> {
    Seq::new(BLOCK_SIZE as nat, |i: int| v)
}

/// How many samples of an input of length `n` a push keeps: the last block
/// at most.
pub open spec fn kept_count(n: nat) -> nat {
    if n > BLOCK_SIZE {
        BLOCK_SIZE as nat
    } else {
        n
    }
}

/// Storage `d` read from position `w` to its end, then from its start to `w`.
pub open spec fn rotated<T>(d: Seq<T>, w: int) -> Seq<T> {
    d.subrange(w, d.len() as int) + d.subrange(0, w)
}

/// Only the last block of an input can reach the window.
proof fn lemma_keep_last_block<T>(window: Seq<T>, x: Seq<T>, start: int)
    requires
        window.len() == BLOCK_SIZE,
        start == x.len() - kept_count(x.len()),
    ensures
        last_block(window + x) == last_block(window + x.subrange(start, x.len() as int)),
{
    assert(last_block(window + x) =~= last_block(window + x.subrange(start, x.len() as int)));
}

/// A push that fits between the write position and the end of the storage.
proof fn lemma_push_without_wrap<T>(d: Seq<T>, w: int, y: Seq<T>)
    requires
        d.len() == BLOCK_SIZE,
        0 <= w < BLOCK_SIZE,
        w + y.len() <= BLOCK_SIZE,
    ensures
        rotated(d.subrange(0, w) + y + d.subrange(w + y.len(), BLOCK_SIZE as int), (w + y.len())
            % (BLOCK_SIZE as int)) == last_block(rotated(d, w) + y),
{
    let e = d.subrange(0, w) + y + d.subrange(w + y.len(), BLOCK_SIZE as int);
    let n = y.len() as int;
    if w + n < BLOCK_SIZE {
        assert(rotated(e, w + n) =~= d.subrange(w + n, BLOCK_SIZE as int) + d.subrange(0, w) + y);
        assert(last_block(rotated(d, w) + y) =~= d.subrange(w + n, BLOCK_SIZE as int) + d.subrange(
            0,
            w,
        ) + y);
    } else {
        assert(rotated(e, 0) =~= d.subrange(0, w) + y);
        assert(last_block(rotated(d, w) + y) =~= d.subrange(0, w) + y);
    }
}

/// A push that runs past the end of the storage and goes on at its start.
proof fn lemma_push_with_wrap<T>(d: Seq<T>, w: int, y: Seq<T>)
    requires
        d.len() == BLOCK_SIZE,
        0 <= w < BLOCK_SIZE,
        w + y.len() > BLOCK_SIZE,
        y.len() <= BLOCK_SIZE,
    ensures
        ({
            let split = BLOCK_SIZE - w;
            let rest = y.len() - split;
            let first = d.subrange(0, w) + y.subrange(0, split);
            let second = y.subrange(split, y.len() as int) + first.subrange(
                rest,
                BLOCK_SIZE as int,
            );
            rotated(second, rest) == last_block(rotated(d, w) + y)
        }),
{
    let split = BLOCK_SIZE - w;
    let rest = y.len() - split;
    let first = d.subrange(0, w) + y.subrange(0, split);
    let second = y.subrange(split, y.len() as int) + first.subrange(rest, BLOCK_SIZE as int);
    assert(rotated(second, rest) =~= d.subrange(rest, w) + y);
    assert(last_block(rotated(d, w) + y) =~= d.subrange(rest, w) + y);
}

/// The window after each of `chunks` is pushed in turn, starting from
/// `window`.
pub open spec fn window_after_pushes<T>(window: Seq<T>, chunks: Seq<Seq<T>>) -> Seq<T>
    decreases chunks.len(),
{
    if chunks.len() == 0 {
        window
    } else {
        window_after_pushes(last_block(window + chunks[0]), chunks.drop_first())
    }
}

/// The write position after each of `chunks` is pushed in turn, starting
/// from `position`.
pub open spec fn position_after_pushes<T>(position: nat, chunks: Seq<Seq<T>>) -> nat
    decreases chunks.len(),
{
    if chunks.len() == 0 {
        position
    } else {
        position_after_pushes(
            (position + kept_count(chunks[0].len())) % (BLOCK_SIZE as nat),
            chunks.drop_first(),
        )
    }
}

/// Pushing `a` and then `b` leaves the same window as pushing `a`
/// followed by `b` at once.
pub proof fn lemma_push_in_pieces<T>(window: Seq<T>, a: Seq<T>, b: Seq<T>)
    requires
        window.len() == BLOCK_SIZE,
    ensures
        last_block(last_block(window + a) + b) == last_block(window + (a + b)),
{
    assert(last_block(last_block(window + a) + b) =~= last_block(window + (a + b)));
}

/// A push of at least a block replaces the whole window with the last block
/// of what was pushed.
pub proof fn lemma_long_push_replaces_window<T>(window: Seq<T>, x: Seq<T>)
    requires
        window.len() == BLOCK_SIZE,
        x.len() >= BLOCK_SIZE,
    ensures
        last_block(window + x) == last_block(x),
{
    assert(last_block(window + x) =~= last_block(x));
}

/// Streaming: after chunks are pushed one by one, the window is the last
/// block of the old window followed by all of them, whatever the chunking.
pub proof fn lemma_stream_window<T>(window: Seq<T>, chunks: Seq<Seq<T>>)
    requires
        window.len() == BLOCK_SIZE,
    ensures
        window_after_pushes(window, chunks) == last_block(window + chunks.flatten()),
    decreases chunks.len(),
{
    if chunks.len() == 0 {
        assert(window + chunks.flatten() =~= window);
        assert(last_block(window) =~= window);
    } else {
        let next = last_block(window + chunks[0]);
        lemma_stream_window(next, chunks.drop_first());
        lemma_push_in_pieces(window, chunks[0], chunks.drop_first().flatten());
    }
}

/// Streaming: when no chunk is longer than a block, the write position
/// advances by the number of samples pushed, modulo the block size.
pub proof fn lemma_stream_position<T>(position: nat, chunks: Seq<Seq<T>>)
    requires
        position < BLOCK_SIZE,
        forall|i: int| 0 <= i < chunks.len() ==> #[trigger] chunks[i].len() <= BLOCK_SIZE,
    ensures
        position_after_pushes(position, chunks) == (position + chunks.flatten().len()) % (
        BLOCK_SIZE as nat),
    decreases chunks.len(),
{
    if chunks.len() == 0 {
        assert(chunks.flatten().len() == 0);
    } else {
        let rest = chunks.drop_first();
        assert forall|i: int| 0 <= i < rest.len() implies #[trigger] rest[i].len() <= BLOCK_SIZE by {
            assert(rest[i] == chunks[i + 1]);
        }
        let next = (position + chunks[0].len()) % (BLOCK_SIZE as nat);
        lemma_stream_position(next, rest);
        vstd::arithmetic::div_mod::lemma_add_mod_noop(
            (position + chunks[0].len()) as int,
            rest.flatten().len() as int,
            BLOCK_SIZE as int,
        );
        vstd::arithmetic::div_mod::lemma_mod_twice(rest.flatten().len() as int, BLOCK_SIZE as int);
    }
}

/// Circular storage of the latest `BLOCK_SIZE` samples. The samples at
/// `write_index..` are the older ones, those at `..write_index` the newer
/// ones; the next sample is written at `write_index`.
pub struct AudioBuffer<T> {
    data: Vec<T>,
    write_index: usize,
    silence: T,
}

impl<T> AudioBuffer<T> {
    #[verifier::type_invariant]
    closed spec fn well_formed(&self) -> bool {
        &&& self.data@.len() == BLOCK_SIZE
        &&& self.write_index < BLOCK_SIZE
    }

    /// The storage, in memory order.
    pub closed spec fn storage(&self) -> Seq<T> {
        self.data@
    }

    /// Where the next sample goes.
    pub closed spec fn write_position(&self) -> nat {
        self.write_index as nat
    }

    /// The value that `new` and `clear_buffer` fill the storage with.
    pub closed spec fn fill_value(&self) -> T {
        self.silence
    }
}

impl<T> View for AudioBuffer<T> {
    type V = Seq<T>;

    /// The window, oldest sample first: the storage from the write position
    /// to its end, then from its start to the write position.
    open spec fn view(&self) -> Seq<T> {
        rotated(self.storage(), self.write_position() as int)
    }
}

impl<T: Copy> AudioBuffer<T> {
    /// A buffer whose storage holds `silence` everywhere, written from the
    /// start.
    pub fn new(silence: T) -> (buf: Self)
        ensures
            buf.storage() == constant_block(silence),
            buf@ == constant_block(silence),
            buf.write_position() == 0,
            buf.fill_value() == silence,
    {
        let mut data: Vec<T> = Vec::new();
        let mut i: usize = 0;
        while i < BLOCK_SIZE
            invariant
                i <= BLOCK_SIZE,
                data@ == Seq::new(i as nat, |k: int| silence),
            decreases BLOCK_SIZE - i,
        {
            data.push(silence);
            i = i + 1;
        }
        let buf = AudioBuffer { data, write_index: 0, silence };
        assert(buf@ =~= constant_block(silence));
        buf
    }

    /// Copies `src[src_start..src_start + count]` into the storage at
    /// `dst..dst + count`.
    fn copy_run(&mut self, dst: usize, src: &[T], src_start: usize, count: usize)
        requires
            dst + count <= BLOCK_SIZE,
            src_start + count <= src@.len(),
            src@.len() <= usize::MAX,
        ensures
            final(self).storage() == old(self).storage().subrange(0, dst as int) + src@.subrange(
                src_start as int,
                src_start + count,
            ) + old(self).storage().subrange(dst + count, BLOCK_SIZE as int),
            final(self).write_position() == old(self).write_position(),
            final(self).fill_value() == old(self).fill_value(),
        no_unwind
    {
        proof {
            use_type_invariant(&*self);
        }
        let ghost before = self.data@;
        let mut k: usize = 0;
        while k < count
            invariant
                k <= count,
                dst + count <= BLOCK_SIZE,
                src_start + count <= src@.len(),
                src@.len() <= usize::MAX,
                before.len() == BLOCK_SIZE,
                self.data@.len() == BLOCK_SIZE,
                self.write_index == old(self).write_index,
                self.silence == old(self).silence,
                self.write_index < BLOCK_SIZE,
                before == old(self).data@,
                forall|i: int| 0 <= i < dst ==> self.data@[i] == before[i],
                forall|i: int| dst + count <= i < BLOCK_SIZE ==> self.data@[i] == before[i],
                forall|i: int| dst <= i < dst + k ==> self.data@[i] == src@[src_start + (i - dst)],
                forall|i: int| dst + k <= i < dst + count ==> self.data@[i] == before[i],
            decreases count - k,
        {
            let v = src[src_start + k];
            self.data[dst + k] = v;
            k = k + 1;
        }
        assert(self.data@ =~= before.subrange(0, dst as int) + src@.subrange(
            src_start as int,
            src_start + count,
        ) + before.subrange(dst + count, BLOCK_SIZE as int));
    }

    /// Appends `incoming` to the stream: afterwards the window is the last
    /// block of the old window followed by `incoming`. Of an input longer
    /// than a block only its last block is written.
    pub fn push(&mut self, incoming: &[T])
        ensures
            final(self)@ == last_block(old(self)@ + incoming@),
            final(self)@.len() == BLOCK_SIZE,
            final(self).write_position() == (old(self).write_position() + kept_count(
                incoming@.len(),
            )) % (BLOCK_SIZE as nat),
            final(self).fill_value() == old(self).fill_value(),
    {
        proof {
            use_type_invariant(&*self);
        }
        let ghost d = self.data@;
        let ghost old_window = self@;
        let mut input_len = incoming.len();
        let mut start: usize = 0;
        if input_len > BLOCK_SIZE {
            start = input_len - BLOCK_SIZE;
            input_len = BLOCK_SIZE;
        }
        let ghost kept = incoming@.subrange(start as int, start + input_len);
        proof {
            lemma_keep_last_block(old_window, incoming@, start as int);
        }
        let w = self.write_index;
        let space_left = BLOCK_SIZE - w;
        if input_len <= space_left {
            self.copy_run(w, incoming, start, input_len);
            let sum = w + input_len;
            let next = sum & (BLOCK_SIZE - 1);
            assert(sum & 4095 == sum % 4096) by (bit_vector)
                requires
                    sum <= 4096,
            ;
            self.write_index = next;
            proof {
                lemma_push_without_wrap(d, w as int, kept);
                assert(self.data@ =~= d.subrange(0, w as int) + kept + d.subrange(
                    w + input_len,
                    BLOCK_SIZE as int,
                ));
            }
        } else {
            self.copy_run(w, incoming, start, space_left);
            let ghost first = self.data@;
            let remaining = input_len - space_left;
            self.copy_run(0, incoming, start + space_left, remaining);
            self.write_index = remaining;
            proof {
                lemma_push_with_wrap(d, w as int, kept);
                assert(first =~= d.subrange(0, w as int) + kept.subrange(0, space_left as int));
                assert(self.data@ =~= kept.subrange(space_left as int, kept.len() as int)
                    + first.subrange(remaining as int, BLOCK_SIZE as int));
            }
        }
    }

    /// Copies the window, oldest sample first, into `audioblock`.
    pub fn read_block_to(&self, audioblock: &mut [T])
        requires
            old(audioblock)@.len() == BLOCK_SIZE,
        ensures
            final(audioblock)@ == self@,
    {
        proof {
            use_type_invariant(self);
        }
        let w = self.write_index;
        let split = BLOCK_SIZE - w;
        let mut k: usize = 0;
        while k < BLOCK_SIZE
            invariant
                k <= BLOCK_SIZE,
                w < BLOCK_SIZE,
                split == BLOCK_SIZE - w,
                w == self.write_index,
                self.data@.len() == BLOCK_SIZE,
                audioblock@.len() == BLOCK_SIZE,
                forall|i: int| 0 <= i < k ==> audioblock@[i] == self@[i],
            decreases BLOCK_SIZE - k,
        {
            let v = if k < split {
                self.data[w + k]
            } else {
                self.data[k - split]
            };
            audioblock[k] = v;
            k = k + 1;
        }
        assert(audioblock@ =~= self@);
    }

    /// Fills the storage with the fill value again and writes from the start.
    pub fn clear_buffer(&mut self)
        ensures
            final(self).storage() == constant_block(old(self).fill_value()),
            final(self)@ == constant_block(old(self).fill_value()),
            final(self).write_position() == 0,
            final(self).fill_value() == old(self).fill_value(),
        no_unwind
    {
        proof {
            use_type_invariant(&*self);
        }
        let silence = self.silence;
        let mut i: usize = 0;
        while i < BLOCK_SIZE
            invariant
                i <= BLOCK_SIZE,
                self.data@.len() == BLOCK_SIZE,
                self.write_index < BLOCK_SIZE,
                self.silence == silence,
                forall|k: int| 0 <= k < i ==> self.data@[k] == silence,
            decreases BLOCK_SIZE - i,
        {
            self.data[i] = silence;
            i = i + 1;
        }
        self.write_index = 0;
        assert(self.data@ =~= constant_block(silence));
        assert(self@ =~= constant_block(silence));
    }

    /// Where the next sample goes.
    pub fn write_index(&self) -> (idx: usize)
        ensures
            idx == self.write_position(),
            idx < BLOCK_SIZE,
    {
        proof {
            use_type_invariant(self);
        }
        self.write_index
    }

    /// The storage, in memory order.
    pub fn data(&self) -> (d: &[T])
        ensures
            d@ == self.storage(),
            d@.len() == BLOCK_SIZE,
    {
        proof {
            use_type_invariant(self);
        }
        self.data.as_slice()
    }
}

} // verus!
