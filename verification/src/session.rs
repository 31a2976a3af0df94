//! One connection's compute path: buffered bytes are decoded into frames,
//! each frame becomes a command, each command one `step` of the worker, and
//! the replies come back encoded. The I/O around it — sockets, polling,
//! accept and eviction — lives outside the library and only moves bytes.

use vstd::prelude::*;

verus! {

use crate::resp::{Resp, RespData, model_seq, enc_seq, lemma_enc_seq_take_succ, lemma_model_seq};
use crate::codec::{Codec, dec_stream, StreamStep};
use crate::command::{Command, spec_command};
use crate::worker::{Worker, StoreModel, step};

/// The replies to a run of decoded frames, and the store left behind: each
/// frame either steps the worker or earns its validation-error reply, the
/// connection staying open either way.
pub open spec fn session_step(m: StoreModel, vs: Seq<RespData>, now_ms: u64) -> (
    Seq<RespData>,
    StoreModel,
)
    decreases vs.len(),
{
    if vs.len() == 0 {
        (Seq::empty(), m)
    } else {
        match spec_command(vs[0]) {
            Ok(cmd) => {
                let stepped = step(m, cmd, now_ms);
                let rest = session_step(stepped.1, vs.subrange(1, vs.len() as int), now_ms);
                (seq![stepped.0] + rest.0, rest.1)
            },
            Err(e) => {
                let rest = session_step(m, vs.subrange(1, vs.len() as int), now_ms);
                (seq![e] + rest.0, rest.1)
            },
        }
    }
}

/// One client connection's state: the bytes of its frame still being
/// received.
pub struct Session {
    codec: Codec,
}

impl View for Session {
    type V = Seq<u8>;

    closed spec fn view(&self) -> Seq<u8> {
        self.codec@
    }
}

impl Session {
    /// A fresh connection with nothing buffered.
    pub fn new() -> (s: Session)
        ensures
            s@ == Seq::<u8>::empty(),
    {
        Session { codec: Codec::new() }
    }

    /// Handles newly arrived bytes at instant `now_ms`: every frame now
    /// complete is decoded, dispatched against the worker, and answered, in
    /// order; an incomplete tail stays buffered. A malformed prefix returns
    /// the protocol-error reply instead, with the worker untouched — the
    /// connection is then closed by the caller.
    pub fn on_bytes(&mut self, worker: &mut Worker, data: &[u8], now_ms: u64) -> (r: Result<
        Vec<Resp>,
        Resp,
    >)
        requires
            old(worker).wf(),
        ensures
            final(worker).wf(),
            ({
                let all = old(self)@ + data@;
                match r {
                    Result::Ok(replies) => match dec_stream(all, 0) {
                        StreamStep::Done(vs, end) => (
                            model_seq(replies@),
                            final(worker)@,
                        ) == session_step(old(worker)@, vs, now_ms) && final(self)@
                            == all.subrange(end, all.len() as int),
                        StreamStep::Bad => false,
                    },
                    Result::Err(e) => dec_stream(all, 0) is Bad && e@ == RespData::SimpleError(
                        "ERR protocol error"@,
                    ) && final(self)@ == Seq::<u8>::empty() && final(worker)@ == old(worker)@,
                }
            }),
    {
        let ghost m0 = worker@;
        let mut frames = match self.codec.feed(data) {
            Result::Ok(frames) => frames,
            Result::Err(e) => {
                return Err(e);
            },
        };
        let ghost vs_all = model_seq(frames@);
        let mut replies: Vec<Resp> = Vec::new();
        proof {
            lemma_model_seq(frames@);
            assert(model_seq(replies@) =~= Seq::<RespData>::empty());
        }
        proof {
            assert(Seq::<RespData>::empty() + session_step(m0, vs_all, now_ms).0
                =~= session_step(m0, vs_all, now_ms).0);
        }
        while frames.len() > 0
            invariant
                worker.wf(),
                ({
                    let rest = session_step(worker@, model_seq(frames@), now_ms);
                    session_step(m0, vs_all, now_ms) == (
                        model_seq(replies@) + rest.0,
                        rest.1,
                    )
                }),
            decreases frames.len(),
        {
            let ghost frames0 = frames@;
            let ghost m_pre = worker@;
            let v = frames.remove(0);
            proof {
                lemma_model_seq(frames0);
                lemma_model_seq(frames@);
                assert(frames@ =~= frames0.subrange(1, frames0.len() as int));
                assert(model_seq(frames@) =~= model_seq(frames0).subrange(
                    1,
                    model_seq(frames0).len() as int,
                ));
            }
            proof {
                assert(model_seq(frames0)[0] == v@);
            }
            let reply = match Command::from_resp(v) {
                Result::Ok(cmd) => worker.handle_command_at(cmd, now_ms),
                Result::Err(e) => e,
            };
            proof {
                let rest = session_step(worker@, model_seq(frames@), now_ms);
                assert(session_step(m_pre, model_seq(frames0), now_ms) == (
                    seq![reply@] + rest.0,
                    rest.1,
                ));
                crate::resp::lemma_model_seq_push(replies@, reply);
                assert((model_seq(replies@) + seq![reply@]) + rest.0 =~= model_seq(replies@)
                    + (seq![reply@] + rest.0));
            }
            replies.push(reply);
        }
        proof {
            assert(model_seq(frames@) =~= Seq::<RespData>::empty());
            assert(model_seq(replies@) + Seq::<RespData>::empty() =~= model_seq(replies@));
        }
        Ok(replies)
    }
}

/// Encodes a run of replies back to back, ready to write to the socket.
pub fn encode_all(replies: &Vec<Resp>) -> (out: Vec<u8>)
    ensures
        out@ == enc_seq(model_seq(replies@)),
{
    let mut out: Vec<u8> = Vec::new();
    let ghost models = model_seq(replies@);
    proof {
        lemma_model_seq(replies@);
        assert(models.subrange(0, 0) =~= Seq::<RespData>::empty());
    }
    let mut i: usize = 0;
    while i < replies.len()
        invariant
            i <= replies@.len(),
            models == model_seq(replies@),
            models.len() == replies@.len(),
            forall|j: int| 0 <= j < replies@.len() ==> models[j] == replies@[j]@,
            out@ == enc_seq(models.subrange(0, i as int)),
        decreases replies@.len() - i,
    {
        proof {
            lemma_enc_seq_take_succ(models, i as int);
        }
        let mut encoded = replies[i].encode();
        out.append(&mut encoded);
        i = i + 1;
    }
    proof {
        assert(models.subrange(0, models.len() as int) =~= models);
    }
    out
}

} // verus!
