//! Reassembly of lines from a TCP byte stream: received bytes are kept until a
//! line feed completes them; everything up to the last line feed is released as
//! one chunk of complete lines.

use vstd::prelude::*;

verus! {

/// How many bytes of an unfinished line a connection may hold.
pub const RECEIVE_BUFFER_SIZE: usize = 4096;

/// The index of the last line feed in `s`, if there is one.
pub open spec fn last_newline(s: Seq<u8>) -> Option<int>
    decreases s.len(),
{
    if s.len() == 0 {
        None
    } else if s.last() == 10 {
        Some(s.len() - 1)
    } else {
        last_newline(s.drop_last())
    }
}

/// What became of a read.
pub enum ReceiveStep {
    /// The read returned no bytes: the peer closed the connection.
    Closed,
    /// No line feed yet: the bytes were kept.
    Pending,
    /// The bytes up to the last line feed, without it: a chunk of complete lines.
    Complete(Vec<u8>),
}

/// The bytes of an unfinished line, at most `RECEIVE_BUFFER_SIZE` of them.
pub struct ReceiveBuffer {
    filled: Vec<u8>,
}

pub proof fn lemma_last_newline_bounds(s: Seq<u8>)
    ensures
        last_newline(s) matches Some(j) ==> 0 <= j < s.len() && s[j] == 10 && forall|k: int|
            j < k < s.len() ==> s[k] != 10,
        last_newline(s) is None ==> forall|k: int| 0 <= k < s.len() ==> s[k] != 10,
    decreases s.len(),
{
    if s.len() > 0 && s.last() != 10 {
        lemma_last_newline_bounds(s.drop_last());
        assert(forall|k: int| 0 <= k < s.len() - 1 ==> s.drop_last()[k] == s[k]);
    }
}

impl ReceiveBuffer {
    #[verifier::type_invariant]
    spec fn held_line_fits(self) -> bool {
        &&& self.filled@.len() <= RECEIVE_BUFFER_SIZE
        &&& forall|k: int| 0 <= k < self.filled@.len() ==> self.filled@[k] != 10
    }

    /// The bytes received since the last line feed.
    pub closed spec fn pending(&self) -> Seq<u8> {
        self.filled@
    }

    pub fn new() -> (b: Self)
        ensures
            b.pending() == Seq::<u8>::empty(),
    {
        ReceiveBuffer { filled: Vec::new() }
    }

    /// How many more bytes the next read may bring.
    pub fn free_space(&self) -> (n: usize)
        ensures
            n == RECEIVE_BUFFER_SIZE - self.pending().len(),
    {
        proof {
            use_type_invariant(self);
        }
        RECEIVE_BUFFER_SIZE - self.filled.len()
    }

    /// Whether the buffer holds a whole buffer's worth of an unfinished line, so
    /// that the connection has to be given up.
    pub fn is_full(&self) -> (r: bool)
        ensures
            r == (self.pending().len() == RECEIVE_BUFFER_SIZE),
    {
        proof {
            use_type_invariant(self);
        }
        self.filled.len() == RECEIVE_BUFFER_SIZE
    }

    /// Takes the bytes of one read. No bytes mean the peer closed the connection.
    /// Otherwise, where the held bytes and the new ones hold a line feed, everything
    /// before the last one is released and what follows it is kept; else all is kept.
    pub fn on_read(&mut self, received: &[u8]) -> (step: ReceiveStep)
        requires
            received@.len() <= RECEIVE_BUFFER_SIZE - old(self).pending().len(),
        ensures
            received@.len() == 0 ==> step is Closed && final(self).pending() == old(self).pending(),
            received@.len() > 0 ==> match last_newline(old(self).pending() + received@) {
                Some(j) => {
                    &&& step matches ReceiveStep::Complete(chunk) && chunk@ == (old(self).pending()
                        + received@).subrange(0, j)
                    &&& final(self).pending() == (old(self).pending() + received@).subrange(
                        j + 1,
                        (old(self).pending() + received@).len() as int,
                    )
                },
                None => step is Pending && final(self).pending() == old(self).pending()
                    + received@,
            },
    {
        proof {
            use_type_invariant(&*self);
        }
        if received.len() == 0 {
            return ReceiveStep::Closed;
        }
        let ghost all = self.filled@ + received@;
        let mut data: Vec<u8> = Vec::new();
        std::mem::swap(&mut data, &mut self.filled);
        data.extend_from_slice(received);
        assert(data@ =~= all);
        proof {
            lemma_last_newline_bounds(all);
        }
        assert(all.subrange(0, all.len() as int) =~= all);
        assert(all.len() <= RECEIVE_BUFFER_SIZE);
        let mut i: usize = data.len();
        while i > 0
            invariant
                i <= data@.len(),
                data@ == all,
                all == old(self).pending() + received@,
                received@.len() > 0,
                all.len() <= RECEIVE_BUFFER_SIZE,
                forall|k: int| i <= k < data@.len() ==> data@[k] != 10,
                last_newline(all) == last_newline(all.subrange(0, i as int)),
            decreases i,
        {
            assert(all.subrange(0, i as int).drop_last() =~= all.subrange(0, i - 1));
            if data[i - 1] == 10u8 {
                let rest = data.split_off(i);
                data.pop();
                assert(data@ =~= all.subrange(0, i - 1));
                assert(rest@ =~= all.subrange(i as int, all.len() as int));
                assert(forall|k: int| 0 <= k < rest@.len() ==> rest@[k] == all[i + k]);
                self.filled = rest;
                return ReceiveStep::Complete(data);
            }
            i = i - 1;
        }
        assert(all.subrange(0, 0) =~= Seq::<u8>::empty());
        self.filled = data;
        ReceiveStep::Pending
    }
}

/// A released chunk loses nothing: the chunk, the line feed after it and the bytes
/// kept give back the bytes held before followed by the bytes received.
pub proof fn law_release_loses_nothing(pending: Seq<u8>, received: Seq<u8>)
    requires
        last_newline(pending + received) is Some,
    ensures
        ({
            let all = pending + received;
            let j = last_newline(all)->0;
            all.subrange(0, j) + seq![10u8] + all.subrange(j + 1, all.len() as int) == all
        }),
{
    let all = pending + received;
    lemma_last_newline_bounds(all);
    let j = last_newline(all)->0;
    assert(all.subrange(0, j) + seq![10u8] + all.subrange(j + 1, all.len() as int) =~= all);
}

} // verus!
