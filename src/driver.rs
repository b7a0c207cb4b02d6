use std::rc::Rc;
use vstd::prelude::*;

use crate::cache::{after_insert, RollingCache};
use crate::prompt::{detect, find_prompt_bytes, string_view, DeviceClass};

verus! {

/// How many chunks a session's rolling cache retains.
pub const CACHE_CAPACITY: usize = 256;

/// Read-only identity and classification of the node behind a console.
pub struct ConsoleCtx {
    pub name: String,
    pub class: DeviceClass,
}

impl ConsoleCtx {
    pub fn new(name: String, class: DeviceClass) -> (r: Self)
        ensures
            r.name@ == name@,
            r.class == class,
    {
        ConsoleCtx { name, class }
    }
}

/// What one inbound chunk yields: the chunk itself, the prompt found in the
/// window through it, whether it was the session's first, and that window.
pub struct ConsoleUpdate {
    pub last_chunk: Vec<u8>,
    pub last_prompt: Option<(String, bool)>,
    pub was_first: bool,
    pub cache_ref: Vec<u8>,
}

/// Wraps a connection to a device: it counts the chunks received, keeps a
/// rolling window of them, and looks for the device's prompt in it.
pub struct ConsoleDriver<C> {
    ctx: Rc<ConsoleCtx>,
    pub conn: C,
    received_chunks: usize,
    data_cache: RollingCache,
}

impl<C> ConsoleDriver<C> {
    pub closed spec fn wf(&self) -> bool {
        self.data_cache.wf() && self.data_cache.cap() == CACHE_CAPACITY
    }

    /// How many chunks have been handled.
    pub closed spec fn received(&self) -> nat {
        self.received_chunks as nat
    }

    /// The chunks that the rolling cache retains, oldest first.
    pub closed spec fn history(&self) -> Seq<Seq<u8>> {
        self.data_cache.history()
    }

    /// The device context the session was made with.
    pub closed spec fn ctx(&self) -> ConsoleCtx {
        *self.ctx
    }

    /// The connection the session drives.
    pub closed spec fn connection(&self) -> C {
        self.conn
    }

    pub open spec fn class(&self) -> DeviceClass {
        self.ctx().class
    }

    pub fn context(&self) -> (r: &ConsoleCtx)
        ensures
            *r == self.ctx(),
    {
        &self.ctx
    }

    /// A fresh session around an open connection: no chunk seen, empty cache.
    pub fn from_connection(console: ConsoleCtx, conn: C) -> (r: Self)
        ensures
            r.wf(),
            r.received() == 0,
            r.history() == Seq::<Seq<u8>>::empty(),
            r.ctx() == console,
            r.connection() == conn,
    {
        ConsoleDriver {
            ctx: Rc::new(console),
            conn,
            received_chunks: 0,
            data_cache: RollingCache::with_capacity(CACHE_CAPACITY),
        }
    }

    /// How many chunks have been handled.
    pub fn received_chunks(&self) -> (n: usize)
        ensures
            n == self.received(),
    {
        self.received_chunks
    }

    /// The prompt in `data` by the rule of this session's device class.
    pub fn find_prompt(&self, data: &[u8]) -> (r: Option<(String, bool)>)
        ensures
            string_view(r) == detect(data@, self.class()),
    {
        find_prompt_bytes(data, self.ctx.class)
    }

    /// Handles one inbound chunk: counts it, adds it to the rolling cache and
    /// looks for a prompt in the cache's window.
    pub fn handle_data_chunk(&mut self, chunk: Vec<u8>) -> (u: ConsoleUpdate)
        requires
            old(self).wf(),
            old(self).received() < usize::MAX,
        ensures
            final(self).wf(),
            final(self).received() == old(self).received() + 1,
            final(self).history() == after_insert(
                old(self).history(),
                CACHE_CAPACITY as nat,
                chunk@,
            ),
            final(self).ctx() == old(self).ctx(),
            final(self).connection() == old(self).connection(),
            u.was_first == (old(self).received() == 0),
            u.last_chunk@ == chunk@,
            u.cache_ref@ == final(self).history().flatten(),
            string_view(u.last_prompt) == detect(u.cache_ref@, old(self).class()),
    {
        let was_first = self.received_chunks == 0;
        self.received_chunks = self.received_chunks + 1;
        self.data_cache.insert(&chunk);
        let window = self.data_cache.window();
        let last_prompt = self.find_prompt(window.as_slice());
        ConsoleUpdate { last_chunk: chunk, last_prompt, was_first, cache_ref: window }
    }
}

/// Within one session only the update made from the fresh state is marked
/// first: over the states a session passes through, one chunk at a time,
/// the count before a chunk is zero exactly for the first.
pub proof fn lemma_first_chunk_once<C>(states: Seq<ConsoleDriver<C>>)
    requires
        states.len() > 0,
        states[0].received() == 0,
        forall|i: int|
            0 <= i < states.len() - 1 ==> #[trigger] states[i + 1].received() == states[i].received()
                + 1,
    ensures
        forall|i: int| 0 <= i < states.len() ==> ((#[trigger] states[i].received() == 0) <==> i == 0),
{
    assert forall|i: int| 0 <= i < states.len() implies #[trigger] states[i].received() == i by {
        lemma_count_is_index(states, i);
    }
}

proof fn lemma_count_is_index<C>(states: Seq<ConsoleDriver<C>>, i: int)
    requires
        0 <= i < states.len(),
        states[0].received() == 0,
        forall|k: int|
            0 <= k < states.len() - 1 ==> #[trigger] states[k + 1].received() == states[k].received()
                + 1,
    ensures
        states[i].received() == i,
    decreases i,
{
    if i > 0 {
        lemma_count_is_index(states, i - 1);
        assert(states[(i - 1) + 1].received() == states[i - 1].received() + 1);
    }
}

} // verus!
