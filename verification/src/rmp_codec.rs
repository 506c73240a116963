use std::marker::PhantomData;
use vstd::prelude::*;

verus! {

/// The framing of a byte stream that carries one MessagePack value per message:
/// values of type `In` are read from it and values of type `Out` written to it.
pub struct RmpCodec<In, Out> {
    in_dummy: PhantomData<In>,
    out_dummy: PhantomData<Out>,
}

/// The outcome of an attempt to read one `In` from the start of a buffer.
pub enum DecodeAttempt<In> {
    /// A value was read from the first `consumed` bytes.
    Decoded(In, usize),
    /// The buffer ends before a whole value: more bytes have to arrive.
    Incomplete,
    /// The buffer does not start with a value of the expected type.
    Invalid,
}

/// Error of `RmpCodec::decode`: the buffer does not start with a valid message.
#[derive(Debug, Clone, Copy, PartialEq, Eq)]
pub struct InvalidMessage;

impl<In, Out> RmpCodec<In, Out> {
    /// The codec, which holds no state: every codec of a type is this one.
    pub closed spec fn stateless() -> Self {
        RmpCodec { in_dummy: PhantomData, out_dummy: PhantomData }
    }

    /// A codec; it holds no state.
    pub fn new() -> (c: Self)
        ensures
            c == Self::stateless(),
    {
        RmpCodec { in_dummy: PhantomData, out_dummy: PhantomData }
    }

    /// Appends the encoding `item_bytes` of a message to the output buffer `buf`.
    pub fn encode(&mut self, item_bytes: &[u8], buf: &mut Vec<u8>)
        ensures
            final(buf)@ == old(buf)@ + item_bytes@,
    {
        let mut i: usize = 0;
        while i < item_bytes.len()
            invariant
                0 <= i <= item_bytes@.len(),
                buf@ == old(buf)@ + item_bytes@.subrange(0, i as int),
            decreases item_bytes@.len() - i,
        {
            buf.push(item_bytes[i]);
            i = i + 1;
            assert(buf@ =~= old(buf)@ + item_bytes@.subrange(0, i as int));
        }
        assert(item_bytes@.subrange(0, item_bytes@.len() as int) =~= item_bytes@);
    }

    /// Takes the next message off the input buffer `buf`, given the outcome of reading
    /// one from its start: a message read is returned and its bytes leave the buffer;
    /// with too few bytes nothing is returned and the buffer waits for more; bytes that
    /// are no message are an error.
    pub fn decode(&mut self, buf: &mut Vec<u8>, attempt: DecodeAttempt<In>) -> (r: Result<Option<In>, InvalidMessage>)
        requires
            attempt matches DecodeAttempt::Decoded(_, n) ==> n <= old(buf)@.len(),
        ensures
            match attempt {
                DecodeAttempt::Decoded(v, n) => r == Ok::<Option<In>, InvalidMessage>(Some(v))
                    && final(buf)@ == old(buf)@.subrange(n as int, old(buf)@.len() as int),
                DecodeAttempt::Incomplete => r == Ok::<Option<In>, InvalidMessage>(None) && final(buf)@ == old(buf)@,
                DecodeAttempt::Invalid => r == Err::<Option<In>, InvalidMessage>(InvalidMessage) && final(buf)@ == old(buf)@,
            },
    {
        match attempt {
            DecodeAttempt::Decoded(v, n) => {
                let rest = buf.split_off(n);
                *buf = rest;
                Ok(Some(v))
            },
            DecodeAttempt::Incomplete => Ok(None),
            DecodeAttempt::Invalid => Err(InvalidMessage),
        }
    }
}

impl<In, Out> Default for RmpCodec<In, Out> {
    fn default() -> (c: Self)
        ensures
            c == Self::stateless(),
    {
        Self::new()
    }
}

} // verus!
