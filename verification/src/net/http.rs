//! The HTTP server: the market, registration of contestants, and their readiness.
use crate::engine::contestant::Contestant;
use crate::generation::math;
use crate::generation::rng;
use crate::protocol::wire;
use rand_pcg::Mcg128Xsl64;
use std::collections::{HashMap, HashSet};
use vstd::prelude::*;

verus! {

/// An answer to a request.
#[derive(Debug, Clone)]
pub struct Reply {
    pub status: u16,
    pub content_type: &'static str,
    pub body: Vec<u8>,
}

/// What a [`Reply`] holds.
pub struct ReplyView {
    pub status: u16,
    pub content_type: Seq<char>,
    pub body: Seq<u8>,
}

impl View for Reply {
    type V = ReplyView;

    open spec fn view(&self) -> ReplyView {
        ReplyView {
            status: self.status,
            content_type: self.content_type@,
            body: self.body@,
        }
    }
}

pub const OK: u16 = 200;

pub const FORBIDDEN: u16 = 403;

pub const SERVICE_UNAVAILABLE: u16 = 503;

/// An answer that gives bytes.
pub open spec fn bytes_reply(body: Seq<u8>) -> ReplyView {
    ReplyView { status: OK, content_type: "application/octet-stream"@, body }
}

/// An answer that gives JSON.
pub open spec fn json_reply(body: Seq<u8>) -> ReplyView {
    ReplyView { status: OK, content_type: "application/json"@, body }
}

/// An answer without a body.
pub open spec fn bare_reply(status: u16) -> ReplyView {
    ReplyView { status, content_type: ""@, body: Seq::empty() }
}

/// The bytes of `ok`.
pub open spec fn ok_bytes() -> Seq<u8> {
    seq![0x6fu8, 0x6bu8]
}

/// The bytes of `id not registered`.
pub open spec fn unknown_id_bytes() -> Seq<u8> {
    seq![
        0x69u8,
        0x64u8,
        0x20u8,
        0x6eu8,
        0x6fu8,
        0x74u8,
        0x20u8,
        0x72u8,
        0x65u8,
        0x67u8,
        0x69u8,
        0x73u8,
        0x74u8,
        0x65u8,
        0x72u8,
        0x65u8,
        0x64u8,
    ]
}

/// An answer in plain text.
pub open spec fn text_reply(status: u16, body: Seq<u8>) -> ReplyView {
    ReplyView { status, content_type: "text/plain; charset=utf-8"@, body }
}

/// Bytes and JSON are given with status 200; a text has the status it is given with, and so
/// has an answer without a body. `ok` and `id not registered` are spelt in ASCII.
pub proof fn lemma_replies_are(status: u16, body: Seq<u8>)
    ensures
        bytes_reply(body).status == 200 && bytes_reply(body).body == body,
        json_reply(body).status == 200 && json_reply(body).body == body,
        text_reply(status, body).status == status && text_reply(status, body).body == body,
        bare_reply(status).status == status && bare_reply(status).body.len() == 0,
        bare_reply(status).content_type.len() == 0,
        bytes_reply(body).content_type == "application/octet-stream"@,
        json_reply(body).content_type == "application/json"@,
        text_reply(status, body).content_type == "text/plain; charset=utf-8"@,
        ok_bytes() == "ok"@.map(|i: int, c: char| c as u8),
        unknown_id_bytes() == "id not registered"@.map(|i: int, c: char| c as u8),
        OK == 200 && FORBIDDEN == 403 && SERVICE_UNAVAILABLE == 503,
{
    reveal_strlit("");
    reveal_strlit("ok");
    reveal_strlit("id not registered");
    assert(ok_bytes() =~= "ok"@.map(|i: int, c: char| c as u8));
    assert(unknown_id_bytes() =~= "id not registered"@.map(|i: int, c: char| c as u8));
}

/// What the HTTP server knows.
pub struct HttpServerState {
    market_bytes: Vec<u8>,
    market_json_bytes: Vec<u8>,
    /// Seeded generator that contestant ids are minted from.
    contestant_id_rng: Mcg128Xsl64,
    /// Ids handed out at registration.
    registered_ids: HashSet<u64>,
    /// Ids that have reported to be ready.
    ready_ids: HashSet<u64>,
    /// Once it is set, all requests are turned away.
    configuration_complete: bool,
}

/// What an [`HttpServerState`] holds.
pub struct HttpView {
    pub market_bytes: Seq<u8>,
    pub market_json_bytes: Seq<u8>,
    pub rng_state: u128,
    pub registered: Set<u64>,
    pub ready: Set<u64>,
    pub complete: bool,
}

impl HttpView {
    /// Only registered contestants are ready.
    pub open spec fn wf(self) -> bool {
        self.ready.subset_of(self.registered)
    }
}

impl View for HttpServerState {
    type V = HttpView;

    closed spec fn view(&self) -> HttpView {
        HttpView {
            market_bytes: self.market_bytes@,
            market_json_bytes: self.market_json_bytes@,
            rng_state: rng::rng_state(self.contestant_id_rng),
            registered: self.registered_ids@,
            ready: self.ready_ids@,
            complete: self.configuration_complete,
        }
    }
}

/// A copy of bytes.
fn copy_bytes(bytes: &Vec<u8>) -> (r: Vec<u8>)
    ensures
        r@ == bytes@,
{
    let mut r: Vec<u8> = Vec::new();
    let mut i: usize = 0;
    while i < bytes.len()
        invariant
            i <= bytes@.len(),
            r@ == bytes@.take(i as int),
        decreases bytes@.len() - i,
    {
        r.push(bytes[i]);
        i = i + 1;
        assert(r@ =~= bytes@.take(i as int));
    }
    assert(r@ =~= bytes@);
    r
}

fn bare(status: u16) -> (r: Reply)
    ensures
        r@ == bare_reply(status),
{
    let body: Vec<u8> = Vec::new();
    Reply { status, content_type: "", body }
}

impl HttpServerState {
    pub fn new(market_bytes: Vec<u8>, market_json_bytes: Vec<u8>, seed: u64) -> (r: Self)
        ensures
            r@.wf(),
            r@ == (HttpView {
                market_bytes: market_bytes@,
                market_json_bytes: market_json_bytes@,
                rng_state: rng::seeded_state(seed),
                registered: Set::empty(),
                ready: Set::empty(),
                complete: false,
            }),
    {
        broadcast use vstd::std_specs::hash::group_hash_axioms;

        let r = HttpServerState {
            market_bytes,
            market_json_bytes,
            contestant_id_rng: rng::seed_rng(seed),
            registered_ids: HashSet::new(),
            ready_ids: HashSet::new(),
            configuration_complete: false,
        };
        assert(r@.registered =~= Set::empty());
        assert(r@.ready =~= Set::empty());
        r
    }

    /// Answers that the server is up.
    pub fn get_health(&self) -> (r: Reply)
        ensures
            r@ == if self@.complete {
                bare_reply(SERVICE_UNAVAILABLE)
            } else {
                text_reply(OK, ok_bytes())
            },
    {
        if self.configuration_complete {
            return bare(SERVICE_UNAVAILABLE);
        }
        let body: Vec<u8> = vec![0x6fu8, 0x6bu8];
        assert(body@ =~= ok_bytes());
        Reply { status: OK, content_type: "text/plain; charset=utf-8", body }
    }

    /// Gives the market in binary form.
    pub fn get_market(&self) -> (r: Reply)
        ensures
            r@ == if self@.complete {
                bare_reply(SERVICE_UNAVAILABLE)
            } else {
                bytes_reply(self@.market_bytes)
            },
    {
        if self.configuration_complete {
            return bare(SERVICE_UNAVAILABLE);
        }
        Reply {
            status: OK,
            content_type: "application/octet-stream",
            body: copy_bytes(&self.market_bytes),
        }
    }

    /// Gives the market as JSON.
    pub fn get_market_json(&self) -> (r: Reply)
        ensures
            r@ == if self@.complete {
                bare_reply(SERVICE_UNAVAILABLE)
            } else {
                json_reply(self@.market_json_bytes)
            },
    {
        if self.configuration_complete {
            return bare(SERVICE_UNAVAILABLE);
        }
        Reply {
            status: OK,
            content_type: "application/json",
            body: copy_bytes(&self.market_json_bytes),
        }
    }

    /// Registers a contestant: mints an id and gives its eight bytes.
    pub fn post_register(&mut self) -> (r: Reply)
        requires
            old(self)@.wf(),
        ensures
            final(self)@.wf(),
            ({
                let (id, next) = rng::word_draw(old(self)@.rng_state);
                if old(self)@.complete {
                    &&& r@ == bare_reply(SERVICE_UNAVAILABLE)
                    &&& final(self)@ == old(self)@
                } else {
                    &&& r@ == bytes_reply(wire::le64(id))
                    &&& final(self)@ == (HttpView {
                        rng_state: next,
                        registered: old(self)@.registered.insert(id),
                        ..old(self)@
                    })
                }
            }),
    {
        broadcast use vstd::std_specs::hash::group_hash_axioms;

        if self.configuration_complete {
            return bare(SERVICE_UNAVAILABLE);
        }
        let id: u64 = rng::draw_word(&mut self.contestant_id_rng);
        self.enroll(id)
    }

    /// Enters an id that was minted, and gives its eight bytes.
    pub fn enroll(&mut self, id: u64) -> (r: Reply)
        requires
            old(self)@.wf(),
        ensures
            final(self)@.wf(),
            r@ == bytes_reply(wire::le64(id)),
            final(self)@ == (HttpView {
                registered: old(self)@.registered.insert(id),
                ..old(self)@
            }),
    {
        broadcast use vstd::std_specs::hash::group_hash_axioms;

        self.registered_ids.insert(id);
        let mut body: Vec<u8> = Vec::new();
        wire::put_u64(&mut body, id);
        assert(body@ =~= wire::le64(id));
        Reply { status: OK, content_type: "application/octet-stream", body }
    }

    /// Notes that a contestant is ready. Contestants that are not registered are refused.
    pub fn post_ready(&mut self, id: u64) -> (r: Reply)
        requires
            old(self)@.wf(),
        ensures
            final(self)@.wf(),
            if old(self)@.complete {
                &&& r@ == bare_reply(SERVICE_UNAVAILABLE)
                &&& final(self)@ == old(self)@
            } else if !old(self)@.registered.contains(id) {
                &&& r@ == text_reply(FORBIDDEN, unknown_id_bytes())
                &&& final(self)@ == old(self)@
            } else {
                &&& r@ == bare_reply(OK)
                &&& final(self)@ == (HttpView { ready: old(self)@.ready.insert(id), ..old(self)@ })
            },
    {
        broadcast use vstd::std_specs::hash::group_hash_axioms;

        if self.configuration_complete {
            return bare(SERVICE_UNAVAILABLE);
        }
        if !self.registered_ids.contains(&id) {
            let body: Vec<u8> = vec![
                0x69u8, 0x64u8, 0x20u8, 0x6eu8, 0x6fu8, 0x74u8, 0x20u8, 0x72u8, 0x65u8, 0x67u8,
                0x69u8, 0x73u8, 0x74u8, 0x65u8, 0x72u8, 0x65u8, 0x64u8,
            ];
            assert(body@ =~= unknown_id_bytes());
            return Reply { status: FORBIDDEN, content_type: "text/plain; charset=utf-8", body };
        }
        self.ready_ids.insert(id);
        bare(OK)
    }

    /// Tells whether an id was handed out.
    pub fn is_registered(&self, id: u64) -> (r: bool)
        ensures
            r == self@.registered.contains(id),
    {
        broadcast use vstd::std_specs::hash::group_hash_axioms;

        self.registered_ids.contains(&id)
    }

    /// The number of contestants that are ready.
    pub fn ready_count(&self) -> (r: usize)
        ensures
            r == self@.ready.len(),
    {
        broadcast use vstd::std_specs::hash::group_hash_axioms;

        self.ready_ids.len()
    }

    /// The contestants that take part, each with the same whole number of USD.
    pub fn seed_contestants(&self, initial_balance_usd: i64, usd_decimals: i64) -> (r: HashMap<
        u64,
        Contestant,
    >)
        requires
            forall|id: u64| #[trigger]
                self@.ready.contains(id) ==> 0 <= usd_decimals <= 18 && i64::MIN
                    <= initial_balance_usd * math::ten_to(usd_decimals as int) <= i64::MAX,
        ensures
            r@.dom() == self@.ready,
            forall|id: u64| #[trigger]
                self@.ready.contains(id) ==> r@[id]._id == id && r@[id].balance
                    == initial_balance_usd * math::ten_to(usd_decimals as int),
    {
        broadcast use vstd::std_specs::hash::group_hash_axioms;

        let mut r: HashMap<u64, Contestant> = HashMap::new();
        for id in it: self.ready_ids.iter()
            invariant
                it.seq().unref().to_set() == self.ready_ids@,
                forall|id: u64| #[trigger]
                    self@.ready.contains(id) ==> 0 <= usd_decimals <= 18 && i64::MIN
                        <= initial_balance_usd * math::ten_to(usd_decimals as int) <= i64::MAX,
                forall|i: int| 0 <= i < it.index() ==> r@.dom().contains(*#[trigger] it.seq()[i]),
                forall|id: u64| #[trigger]
                    r@.dom().contains(id) ==> self@.ready.contains(id) && r@[id]._id == id
                        && r@[id].balance == initial_balance_usd * math::ten_to(
                        usd_decimals as int,
                    ),
        {
            broadcast use vstd::std_specs::hash::group_hash_axioms;

            assert(it.seq().unref()[it.index()] == *id);
            assert(it.seq().unref().contains(*id));
            assert(self@.ready.contains(*id));
            r.insert(*id, Contestant::new_with_decimals(*id, initial_balance_usd, usd_decimals));
        }
        assert(r@.dom() =~= self@.ready);
        r
    }

    /// Ends the configuration: from now on all requests are turned away.
    pub fn complete(&mut self)
        requires
            old(self)@.wf(),
        ensures
            final(self)@.wf(),
            final(self)@ == (HttpView { complete: true, ..old(self)@ }),
    {
        self.configuration_complete = true;
    }
}

} // verus!
