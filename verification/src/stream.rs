use vstd::prelude::*;

verus! {

/// How many values an input stream can hold.
pub const INPUT_STREAM_CAPACITY: usize = 256;

/// How many values an output stream can hold.
pub const OUTPUT_STREAM_CAPACITY: usize = 2048;

/// The values held by an input stream, front first.
pub uninterp spec fn input_stream_model(q: InputStream) -> Seq<i64>;

/// The values held by an output stream, front first.
pub uninterp spec fn output_stream_model(q: OutputStream) -> Seq<i64>;

/// A stream of raw sample values feeding an input endpoint: a
/// fixed-capacity single-producer single-consumer ring buffer from the
/// `heapless` crate. The ring is opaque to the verifier;
/// `input_stream_model` names the sequence of values it holds, front
/// first, and every trusted operation states how it moves that sequence.
/// Its view is that sequence.
#[verifier::external_body]
pub struct InputStream {
    ring: heapless::spsc::Queue<i64, 257>,
}

impl View for InputStream {
    type V = Seq<i64>;

    open spec fn view(&self) -> Seq<i64> {
        input_stream_model(*self)
    }
}

impl InputStream {
    /// Relies on heapless::spsc::Queue::new: a fresh queue holds nothing.
    #[verifier::external_body]
    pub fn new() -> (r: InputStream)
        ensures
            input_stream_model(r) == Seq::<i64>::empty(),
    {
        InputStream { ring: heapless::spsc::Queue::new() }
    }

    /// Relies on heapless::spsc::Queue::enqueue: appends the item at the
    /// tail while fewer than `N - 1` items are held; on a full ring it
    /// returns the item back and changes nothing.
    #[verifier::external_body]
    pub fn enqueue(&mut self, v: i64) -> (r: Result<(), i64>)
        ensures
            old(self)@.len() < INPUT_STREAM_CAPACITY ==> r is Ok
                && input_stream_model(*final(self)) == old(self)@.push(v),
            old(self)@.len() >= INPUT_STREAM_CAPACITY ==> (r matches Err(x) && x == v)
                && input_stream_model(*final(self)) == old(self)@,
    {
        self.ring.enqueue(v)
    }

    /// Relies on heapless::spsc::Queue::dequeue: removes and returns the
    /// front item, or returns nothing when the ring is empty.
    #[verifier::external_body]
    pub fn dequeue(&mut self) -> (r: Option<i64>)
        ensures
            old(self)@.len() == 0 ==> r is None
                && input_stream_model(*final(self)) == old(self)@,
            old(self)@.len() > 0 ==> r == Some(old(self)@.first())
                && input_stream_model(*final(self)) == old(self)@.drop_first(),
    {
        self.ring.dequeue()
    }
}

impl Clone for InputStream {
    /// Relies on heapless's Clone for Queue: the clone holds the same
    /// items in the same order.
    #[verifier::external_body]
    fn clone(&self) -> (r: Self)
        ensures
            input_stream_model(r) == self@,
    {
        InputStream { ring: self.ring.clone() }
    }
}

/// A stream of raw sample values leaving an output endpoint: a
/// fixed-capacity single-producer single-consumer ring buffer from the
/// `heapless` crate, opaque to the verifier, with `output_stream_model`
/// naming the sequence of values it holds, front first.
/// Its view is that sequence.
#[verifier::external_body]
pub struct OutputStream {
    ring: heapless::spsc::Queue<i64, 2049>,
}

impl View for OutputStream {
    type V = Seq<i64>;

    open spec fn view(&self) -> Seq<i64> {
        output_stream_model(*self)
    }
}

impl OutputStream {
    /// Relies on heapless::spsc::Queue::new: a fresh queue holds nothing.
    #[verifier::external_body]
    pub fn new() -> (r: OutputStream)
        ensures
            output_stream_model(r) == Seq::<i64>::empty(),
    {
        OutputStream { ring: heapless::spsc::Queue::new() }
    }

    /// Relies on heapless::spsc::Queue::enqueue: appends the item at the
    /// tail while fewer than `N - 1` items are held; on a full ring it
    /// returns the item back and changes nothing.
    #[verifier::external_body]
    pub fn enqueue(&mut self, v: i64) -> (r: Result<(), i64>)
        ensures
            old(self)@.len() < OUTPUT_STREAM_CAPACITY ==> r is Ok
                && output_stream_model(*final(self)) == old(self)@.push(v),
            old(self)@.len() >= OUTPUT_STREAM_CAPACITY ==> (r matches Err(x) && x == v)
                && output_stream_model(*final(self)) == old(self)@,
    {
        self.ring.enqueue(v)
    }

    /// Relies on heapless::spsc::Queue::dequeue: removes and returns the
    /// front item, or returns nothing when the ring is empty.
    #[verifier::external_body]
    pub fn dequeue(&mut self) -> (r: Option<i64>)
        ensures
            old(self)@.len() == 0 ==> r is None
                && output_stream_model(*final(self)) == old(self)@,
            old(self)@.len() > 0 ==> r == Some(old(self)@.first())
                && output_stream_model(*final(self)) == old(self)@.drop_first(),
    {
        self.ring.dequeue()
    }
}

impl Clone for OutputStream {
    /// Relies on heapless's Clone for Queue: the clone holds the same
    /// items in the same order.
    #[verifier::external_body]
    fn clone(&self) -> (r: Self)
        ensures
            output_stream_model(r) == self@,
    {
        OutputStream { ring: self.ring.clone() }
    }
}

} // verus!
