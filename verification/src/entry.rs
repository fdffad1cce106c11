//! The entry service's logic: the answers it gives, the way an HTTP request goes from
//! authorization through the shared pipe to the worker's reply, and the scheduler that
//! reserves pipe slots for waiting requests.
use vstd::prelude::*;
use crate::shared_slot::{SlotPipe, PipeView, lemma_hold_fails_iff_no_empty_slot};
use crate::text::owned;
use std::collections::HashMap;

verus! {

/// The answer to a request that a worker took.
#[derive(Debug)]
pub struct HttpResponse {
    pub success: bool,
    pub message: String,
    pub task_id: Option<u64>,
}

/// The answer to a request that failed: the reason and the HTTP status code.
#[derive(Debug)]
pub struct ErrorResponse {
    pub error: String,
    pub code: u16,
}

/// The paths that need no authorization.
pub open spec fn open_path(path: Seq<char>) -> bool {
    path == "/health"@ || path == "/status"@ || path == "/ping"@
}

/// Whether a request to `path` needs authorization.
pub fn needs_auth(path: &str) -> (b: bool)
    ensures
        b == !open_path(path@),
{
    !(crate::text::same_text(path, "/health") || crate::text::same_text(path, "/status")
        || crate::text::same_text(path, "/ping"))
}

/// The authorization check: every token is accepted.
pub fn authenticate(token: &str) -> (b: bool)
    ensures
        b,
{
    true
}

/// The name-value pairs that `url::form_urlencoded::parse` decodes from the bytes of
/// a query, in order.
pub uninterp spec fn query_pairs(query: Seq<char>) -> Seq<(Seq<char>, Seq<char>)>;

/// `url::form_urlencoded::parse` on the bytes of a query, each pair owned: the claim is
/// that the pairs are `query_pairs` of the query.
#[verifier::external_body]
fn parse_query(query: &str) -> (r: Vec<(String, String)>)
    ensures
        pairs_view(r@) == query_pairs(query@),
{
    url::form_urlencoded::parse(query.as_bytes()).into_owned().collect()
}

/// The view of a list of name-value pairs.
pub open spec fn pairs_view(ps: Seq<(String, String)>) -> Seq<(Seq<char>, Seq<char>)> {
    ps.map_values(|p: (String, String)| (p.0@, p.1@))
}

/// The position of the parameter named `name` (the last one, were there several).
pub open spec fn param_pos(ps: Seq<(Seq<char>, Seq<char>)>, name: Seq<char>) -> Option<int>
    decreases ps.len(),
{
    if ps.len() == 0 {
        None
    } else if ps.last().0 == name {
        Some(ps.len() - 1)
    } else {
        param_pos(ps.drop_last(), name)
    }
}

/// The parameters that name-value pairs give when each is put in turn: each name once,
/// in the order of its first occurrence, with the value of its last.
pub open spec fn gathered(pairs: Seq<(Seq<char>, Seq<char>)>) -> Seq<(Seq<char>, Seq<char>)>
    decreases pairs.len(),
{
    if pairs.len() == 0 {
        Seq::empty()
    } else {
        let g = gathered(pairs.drop_last());
        let p = pairs.last();
        match param_pos(g, p.0) {
            Some(q) => g.update(q, p),
            None => g.push(p),
        }
    }
}

/// Whether no two parameters share a name.
pub open spec fn distinct_names(ps: Seq<(Seq<char>, Seq<char>)>) -> bool {
    forall|i: int, j: int| 0 <= i < j < ps.len() ==> #[trigger] ps[i].0 != #[trigger] ps[j].0
}

/// Lemma: what finding a parameter by name finds, and that a name not found is not
/// there.
proof fn lemma_param_pos(ps: Seq<(Seq<char>, Seq<char>)>, name: Seq<char>)
    ensures
        param_pos(ps, name) matches Some(q) ==> 0 <= q < ps.len() && ps[q].0 == name,
        param_pos(ps, name) is None ==> forall|i: int| 0 <= i < ps.len() ==> ps[i].0 != name,
    decreases ps.len(),
{
    if ps.len() > 0 && ps.last().0 != name {
        lemma_param_pos(ps.drop_last(), name);
        assert forall|i: int| 0 <= i < ps.len() - 1 implies ps[i] == ps.drop_last()[i] by {}
    }
}

/// Lemma: gathered parameters have distinct names, and none is lost: no more of them
/// than pairs, and at least one where there is a pair.
proof fn lemma_gathered(pairs: Seq<(Seq<char>, Seq<char>)>)
    ensures
        distinct_names(gathered(pairs)),
        gathered(pairs).len() <= pairs.len(),
        pairs.len() > 0 ==> gathered(pairs).len() > 0,
    decreases pairs.len(),
{
    if pairs.len() > 0 {
        let g = gathered(pairs.drop_last());
        lemma_gathered(pairs.drop_last());
        lemma_param_pos(g, pairs.last().0);
    }
}

/// The position of the parameter named `name`.
fn find_param(ps: &Vec<(String, String)>, name: &str) -> (r: Option<usize>)
    ensures
        match r {
            Some(q) => param_pos(pairs_view(ps@), name@) == Some(q as int),
            None => param_pos(pairs_view(ps@), name@) is None,
        },
{
    let ghost g = pairs_view(ps@);
    proof {
        lemma_param_pos(g, name@);
    }
    let mut k = ps.len();
    assert(g.subrange(0, k as int) =~= g);
    while k > 0
        invariant
            k <= ps@.len(),
            g == pairs_view(ps@),
            param_pos(g, name@) == param_pos(g.subrange(0, k as int), name@),
        decreases k,
    {
        assert(g.subrange(0, k as int).drop_last() =~= g.subrange(0, k - 1));
        assert(g.subrange(0, k as int).last() == g[k - 1]);
        if crate::text::same_text(ps[k - 1].0.as_str(), name) {
            return Some(k - 1);
        }
        k = k - 1;
    }
    None
}

/// The parameters that name-value pairs give (see `gathered`).
pub fn gather_params(pairs: &Vec<(String, String)>) -> (r: Vec<(String, String)>)
    ensures
        pairs_view(r@) == gathered(pairs_view(pairs@)),
        distinct_names(pairs_view(r@)),
{
    let ghost pv = pairs_view(pairs@);
    let mut out: Vec<(String, String)> = Vec::new();
    let mut i: usize = 0;
    while i < pairs.len()
        invariant
            i <= pairs@.len(),
            pv == pairs_view(pairs@),
            pairs_view(out@) == gathered(pv.subrange(0, i as int)),
        decreases pairs@.len() - i,
    {
        let ghost g = pairs_view(out@);
        let name = pairs[i].0.clone();
        let value = pairs[i].1.clone();
        assert(pv.subrange(0, i + 1).drop_last() =~= pv.subrange(0, i as int));
        assert(pv.subrange(0, i + 1).last() == (name@, value@));
        proof {
            lemma_param_pos(g, name@);
        }
        let found = find_param(&out, name.as_str());
        match found {
            Some(q) => {
                assert(param_pos(g, name@) == Some(q as int));
                out.set(q, (name, value));
                assert(pairs_view(out@) =~= g.update(q as int, pv[i as int]));
            },
            None => {
                assert(param_pos(g.subrange(0, 0), name@) is None);
                out.push((name, value));
                assert(pairs_view(out@) =~= g.push(pv[i as int]));
            },
        }
        i = i + 1;
    }
    assert(pv.subrange(0, i as int) =~= pv);
    proof {
        lemma_gathered(pv);
    }
    out
}

/// What `serde_json::to_string` writes for a string: the JSON string literal of its
/// characters, quoted and escaped.
pub uninterp spec fn json_string(s: Seq<char>) -> Seq<char>;

/// The members of a JSON object, `"name":"value"` for each parameter in order, separated
/// by commas, as serde_json's compact writer puts them; `enc` writes a string literal.
pub open spec fn json_members(
    ps: Seq<(Seq<char>, Seq<char>)>,
    enc: spec_fn(Seq<char>) -> Seq<char>,
) -> Seq<char>
    decreases ps.len(),
{
    if ps.len() == 0 {
        Seq::empty()
    } else {
        let member = enc(ps.last().0) + seq![':'] + enc(ps.last().1);
        if ps.len() == 1 {
            member
        } else {
            json_members(ps.drop_last(), enc) + seq![','] + member
        }
    }
}

/// The JSON object whose members are the parameters, in order.
pub open spec fn json_object(
    ps: Seq<(Seq<char>, Seq<char>)>,
    enc: spec_fn(Seq<char>) -> Seq<char>,
) -> Seq<char> {
    seq!['{'] + json_members(ps, enc) + seq!['}']
}

/// Whether `text` is the JSON object of the parameters in some order.
pub open spec fn object_in_some_order(
    text: Seq<char>,
    params: Seq<(Seq<char>, Seq<char>)>,
    enc: spec_fn(Seq<char>) -> Seq<char>,
) -> bool {
    exists|ps: Seq<(Seq<char>, Seq<char>)>|
        ps.to_multiset() == params.to_multiset() && text == #[trigger] json_object(ps, enc)
}

/// `serde_json::to_string` of the parameters as a map from names to values (the names
/// are distinct, so each parameter is one entry). serde_json writes a map with string
/// keys as an object, each entry as its key's and its value's string literal joined by
/// `:`, the entries separated by `,`, and cannot fail on it. The claim is that the text
/// is `json_object` of the parameters in some order, `json_string` writing each string: the order in which the map is
/// walked, which differs from process to process and is left open. The text starts with
/// `{`, ends with `}`, and is `{}` exactly where there is no parameter.
#[verifier::external_body]
fn params_json(params: &Vec<(String, String)>) -> (r: String)
    requires
        distinct_names(pairs_view(params@)),
    ensures
        r@.len() >= 2,
        r@[0] == '{',
        r@.last() == '}',
        r@.len() == 2 <==> params@.len() == 0,
        object_in_some_order(r@, pairs_view(params@), |s: Seq<char>| json_string(s)),
{
    let map: HashMap<&str, &str> = params.iter().map(|p| (p.0.as_str(), p.1.as_str())).collect();
    serde_json::to_string(&map).unwrap_or_default()
}

/// The query parameters a command carries: none where the query is absent or holds no
/// parameter; else the parameters it gives (each name once, with the value of its last
/// occurrence; see `gather_params`) as a JSON object, its members in an order left open.
pub fn query_headers(query: Option<&str>) -> (r: Option<String>)
    ensures
        match query {
            None => r is None,
            Some(q) => (r is None <==> query_pairs(q@).len() == 0),
        },
        r matches Some(t) ==> t@.len() > 2 && t@[0] == '{' && t@.last() == '}',
        match (query, r) {
            (Some(q), Some(t)) => object_in_some_order(
                t@,
                gathered(query_pairs(q@)),
                |s: Seq<char>| json_string(s),
            ),
            _ => true,
        },
{
    match query {
        None => None,
        Some(q) => {
            let pairs = parse_query(q);
            if pairs.len() == 0 {
                return None;
            }
            let params = gather_params(&pairs);
            proof {
                lemma_gathered(pairs_view(pairs@));
            }
            Some(params_json(&params))
        },
    }
}

/// How many times a request tries to hold a slot before it gives up.
pub const MAX_HOLD_ATTEMPTS: u32 = 100;

/// Where a request stands.
#[derive(Debug, Clone, Copy, PartialEq, Eq, Structural)]
pub enum Stage {
    /// Waiting for the authorization check.
    Authenticating,
    /// Waiting for the body to be read.
    ReadingBody,
    /// Waiting for the command to be encoded.
    Encoding,
    /// Trying to hold a slot.
    Holding,
    /// Waiting for the message to be written into the held slot.
    Sending,
    /// Waiting for the worker's reply.
    Awaiting,
    /// Answered.
    Done,
}

/// What happened since the last step.
#[derive(Debug)]
pub enum HandlerEvent {
    /// The authorization check answered.
    Authenticated(bool),
    /// The body was read, or reading it failed (with the reason).
    BodyRead(Result<String, String>),
    /// The command was encoded into the message, or encoding failed (with the reason).
    Encoded(Result<(), String>),
    /// Holding a slot gave this slot, or none.
    Held(Option<usize>),
    /// Writing the message into the slot succeeded or failed.
    Sent(bool),
    /// The worker replied, or the wait ended without a reply.
    Replied(bool),
}

/// What to do next.
#[derive(Debug)]
pub enum HandlerAction {
    /// Check the token.
    Authenticate(String),
    /// Read the body.
    ReadBody,
    /// Encode the command, with this body.
    Encode(Option<String>),
    /// Tell the scheduler a slot is wanted, then try to hold one.
    SignalAndHold,
    /// Wait a millisecond, then try to hold a slot again.
    WaitAndHold,
    /// Write the message into this slot.
    Send(usize),
    /// Answer with the queue's status.
    RespondStatus,
    /// Wait for the worker's reply.
    AwaitReply,
    /// Answer with the worker's reply.
    RespondReply,
    /// Answer with an error (the pending reply, if any, is dropped).
    Respond(ErrorResponse),
    /// Nothing: the event does not belong to this stage.
    Nothing,
}

/// The way of one request: its stage, whether it asks for the status, whether its
/// body is read, and how many times it tried to hold a slot.
pub struct RequestFlow {
    pub stage: Stage,
    pub is_status: bool,
    pub wants_body: bool,
    pub attempts: u32,
}

impl RequestFlow {
    /// Whether the counts agree with the stage: a request tries to hold a slot at most
    /// `MAX_HOLD_ATTEMPTS` times.
    pub open spec fn wf(&self) -> bool {
        self.attempts < MAX_HOLD_ATTEMPTS
    }
}

/// Whether the action is an error answer with this code and reason.
pub open spec fn is_error(a: HandlerAction, code: u16, error: Seq<char>) -> bool {
    a matches HandlerAction::Respond(e) && e.code == code && e.error@ == error
}

/// The flow after authorization: read the body of a POST or PUT request, else encode
/// the command without one.
pub open spec fn after_auth_stage(wants_body: bool) -> Stage {
    if wants_body {
        Stage::ReadingBody
    } else {
        Stage::Encoding
    }
}

/// The action after authorization.
pub open spec fn after_auth_action(a: HandlerAction, wants_body: bool) -> bool {
    if wants_body {
        a is ReadBody
    } else {
        a matches HandlerAction::Encode(b) && b is None
    }
}

/// An error answer.
fn error_response(code: u16, error: String) -> (a: HandlerAction)
    ensures
        is_error(a, code, error@),
{
    HandlerAction::Respond(ErrorResponse { error, code })
}

impl RequestFlow {
    /// Starts a request for `path` with `method` and the authorization header's text
    /// (empty where there is none).
    pub fn start(path: &str, method: &str, auth_header: &str) -> (r: (RequestFlow, HandlerAction))
        ensures
            r.0.wf(),
            r.0.attempts == 0,
            r.0.is_status == (path@ == "/status"@),
            r.0.wants_body == (method@ == "POST"@ || method@ == "PUT"@),
            !open_path(path@) && auth_header@.len() == 0 ==> r.0.stage == Stage::Done && is_error(
                r.1,
                401,
                "缺少 authorization header"@,
            ),
            !open_path(path@) && auth_header@.len() > 0 ==> r.0.stage == Stage::Authenticating
                && (r.1 matches HandlerAction::Authenticate(t) && t@ == auth_header@),
            open_path(path@) ==> r.0.stage == after_auth_stage(r.0.wants_body) && after_auth_action(
                r.1,
                r.0.wants_body,
            ),
    {
        let is_status = crate::text::same_text(path, "/status");
        let wants_body = crate::text::same_text(method, "POST") || crate::text::same_text(
            method,
            "PUT",
        );
        let mut flow = RequestFlow { stage: Stage::Done, is_status, wants_body, attempts: 0 };
        if needs_auth(path) {
            if auth_header.unicode_len() == 0 {
                let a = error_response(401, String::from_str("缺少 authorization header"));
                return (flow, a);
            }
            flow.stage = Stage::Authenticating;
            return (flow, HandlerAction::Authenticate(owned(auth_header)));
        }
        let a = flow.authorized();
        (flow, a)
    }

    /// Moves on from authorization.
    fn authorized(&mut self) -> (a: HandlerAction)
        ensures
            final(self).stage == after_auth_stage(old(self).wants_body),
            final(self).is_status == old(self).is_status,
            final(self).wants_body == old(self).wants_body,
            final(self).attempts == old(self).attempts,
            after_auth_action(a, old(self).wants_body),
    {
        if self.wants_body {
            self.stage = Stage::ReadingBody;
            HandlerAction::ReadBody
        } else {
            self.stage = Stage::Encoding;
            HandlerAction::Encode(None)
        }
    }

    /// Takes the next event and says what to do.
    pub fn step(&mut self, event: HandlerEvent) -> (a: HandlerAction)
        requires
            old(self).wf(),
        ensures
            final(self).wf(),
            final(self).is_status == old(self).is_status,
            final(self).wants_body == old(self).wants_body,
            match (old(self).stage, event) {
                (Stage::Authenticating, HandlerEvent::Authenticated(ok)) => if ok {
                    final(self).stage == after_auth_stage(old(self).wants_body) && after_auth_action(
                        a,
                        old(self).wants_body,
                    )
                } else {
                    final(self).stage == Stage::Done && is_error(a, 401, "鉴权失败"@)
                },
                (Stage::ReadingBody, HandlerEvent::BodyRead(Ok(body))) => final(self).stage
                    == Stage::Encoding && (a matches HandlerAction::Encode(b) && b matches Some(x)
                    && x@ == body@),
                (Stage::ReadingBody, HandlerEvent::BodyRead(Err(e))) => final(self).stage
                    == Stage::Done && is_error(a, 400, "读取请求体失败: "@ + e@),
                (Stage::Encoding, HandlerEvent::Encoded(Ok(()))) => final(self).stage
                    == Stage::Holding && final(self).attempts == 0 && a is SignalAndHold,
                (Stage::Encoding, HandlerEvent::Encoded(Err(e))) => final(self).stage == Stage::Done
                    && is_error(a, 500, "序列化失败: "@ + e@),
                (Stage::Holding, HandlerEvent::Held(Some(i))) => final(self).stage == Stage::Sending
                    && a == HandlerAction::Send(i),
                (Stage::Holding, HandlerEvent::Held(None)) => if old(self).attempts + 1
                    >= MAX_HOLD_ATTEMPTS {
                    final(self).stage == Stage::Done && is_error(a, 503, "服务器繁忙，等待槽位超时"@)
                } else {
                    final(self).stage == Stage::Holding && final(self).attempts == old(self).attempts
                        + 1 && a is WaitAndHold
                },
                (Stage::Sending, HandlerEvent::Sent(ok)) => if !ok {
                    final(self).stage == Stage::Done && is_error(a, 500, "写入槽位失败"@)
                } else if old(self).is_status {
                    final(self).stage == Stage::Done && a is RespondStatus
                } else {
                    final(self).stage == Stage::Awaiting && a is AwaitReply
                },
                (Stage::Awaiting, HandlerEvent::Replied(ok)) => final(self).stage == Stage::Done
                    && if ok {
                    a is RespondReply
                } else {
                    is_error(a, 500, "请求处理超时"@)
                },
                _ => final(self).stage == old(self).stage && final(self).attempts == old(self).attempts && a is Nothing,
            },
    {
        match (self.stage, event) {
            (Stage::Authenticating, HandlerEvent::Authenticated(ok)) => {
                if ok {
                    self.authorized()
                } else {
                    self.stage = Stage::Done;
                    error_response(401, String::from_str("鉴权失败"))
                }
            },
            (Stage::ReadingBody, HandlerEvent::BodyRead(Ok(body))) => {
                self.stage = Stage::Encoding;
                HandlerAction::Encode(Some(body))
            },
            (Stage::ReadingBody, HandlerEvent::BodyRead(Err(e))) => {
                self.stage = Stage::Done;
                let mut m = String::from_str("读取请求体失败: ");
                m.append(e.as_str());
                error_response(400, m)
            },
            (Stage::Encoding, HandlerEvent::Encoded(Ok(()))) => {
                self.stage = Stage::Holding;
                self.attempts = 0;
                HandlerAction::SignalAndHold
            },
            (Stage::Encoding, HandlerEvent::Encoded(Err(e))) => {
                self.stage = Stage::Done;
                let mut m = String::from_str("序列化失败: ");
                m.append(e.as_str());
                error_response(500, m)
            },
            (Stage::Holding, HandlerEvent::Held(Some(i))) => {
                self.stage = Stage::Sending;
                HandlerAction::Send(i)
            },
            (Stage::Holding, HandlerEvent::Held(None)) => {
                if self.attempts + 1 >= MAX_HOLD_ATTEMPTS {
                    self.stage = Stage::Done;
                    error_response(503, String::from_str("服务器繁忙，等待槽位超时"))
                } else {
                    self.attempts = self.attempts + 1;
                    HandlerAction::WaitAndHold
                }
            },
            (Stage::Sending, HandlerEvent::Sent(ok)) => {
                if !ok {
                    self.stage = Stage::Done;
                    error_response(500, String::from_str("写入槽位失败"))
                } else if self.is_status {
                    self.stage = Stage::Done;
                    HandlerAction::RespondStatus
                } else {
                    self.stage = Stage::Awaiting;
                    HandlerAction::AwaitReply
                }
            },
            (Stage::Awaiting, HandlerEvent::Replied(ok)) => {
                self.stage = Stage::Done;
                if ok {
                    HandlerAction::RespondReply
                } else {
                    error_response(500, String::from_str("请求处理超时"))
                }
            },
            _ => HandlerAction::Nothing,
        }
    }
}

} // verus!

verus! {

/// The scheduler's memory: the request counter it last saw.
pub struct Scheduler {
    last_counter: i64,
}

/// What the scheduler reserved for waiting requests in one tick: the slots to hand
/// out, and by how many the counter of waiting requests goes down.
#[derive(Debug)]
pub struct ReservePlan {
    pub slots: Vec<usize>,
    pub processed: i64,
}

/// How many new requests a tick serves: the growth of the counter, at most `i64::MAX`.
pub open spec fn wanted_count(current: i64, last: i64) -> int {
    if current - last > i64::MAX {
        i64::MAX as int
    } else {
        current - last
    }
}

/// The slots that `k` holds in turn claim from a pipe, and the pipe after them (a hold
/// that finds no empty slot claims nothing).
pub open spec fn hold_run(p: PipeView, k: nat) -> (Seq<int>, PipeView)
    decreases k,
{
    if k == 0 {
        (Seq::empty(), p)
    } else {
        let (s, q) = hold_run(p, (k - 1) as nat);
        match q.hold_target() {
            Some(i) => (s.push(i), q.after_hold(i)),
            None => (s, q),
        }
    }
}

/// Law: a run of holds, as one tick of the scheduler makes them, claims no slot twice;
/// every slot it claims was `EMPTY` before the run and is held after it; no other slot
/// changes; and it claims fewer slots than it was asked for only when no slot is left
/// `EMPTY`.
pub proof fn lemma_hold_run(p: PipeView, k: nat)
    requires
        p.wf(),
    ensures
        hold_run(p, k).1.wf(),
        hold_run(p, k).0.len() <= k,
        hold_run(p, k).1.capacity() == p.capacity(),
        forall|a: int|
            0 <= a < hold_run(p, k).0.len() ==> {
                let i = #[trigger] hold_run(p, k).0[a];
                0 <= i < p.capacity() && p.states()[i] == 0 && hold_run(p, k).1.states()[i] == 1
            },
        forall|a: int, b: int|
            0 <= a < b < hold_run(p, k).0.len() ==> hold_run(p, k).0[a] != hold_run(p, k).0[b],
        forall|j: int|
            0 <= j < p.capacity() && !hold_run(p, k).0.contains(j) ==> #[trigger] hold_run(
                p,
                k,
            ).1.states()[j] == p.states()[j],
        hold_run(p, k).0.len() < k ==> forall|j: int|
            0 <= j < p.capacity() ==> #[trigger] hold_run(p, k).1.states()[j] != 0,
    decreases k,
{
    if k > 0 {
        lemma_hold_run(p, (k - 1) as nat);
        let (s, q) = hold_run(p, (k - 1) as nat);
        lemma_hold_fails_iff_no_empty_slot(q);
        match q.hold_target() {
            Some(i) => {
                let r = q.after_hold(i);
                assert(r.states() =~= q.states().update(i, 1));
                assert forall|a: int| 0 <= a < s.len() implies #[trigger] s[a] != i by {
                    assert(q.states()[s[a]] == 1);
                }
                assert forall|j: int|
                    0 <= j < p.capacity() && !s.push(i).contains(j) implies #[trigger] r.states()[j]
                    == p.states()[j] by {
                    assert(s.push(i)[s.len() as int] == i);
                    assert(j != i);
                    assert(!s.contains(j)) by {
                        if s.contains(j) {
                            let a = choose|a: int| 0 <= a < s.len() && s[a] == j;
                            assert(s.push(i)[a] == j);
                        }
                    }
                    assert(q.states()[j] == p.states()[j]);
                    assert(r.states()[j] == q.states()[j]);
                }
                assert forall|a: int| 0 <= a < s.push(i).len() implies {
                    let x = #[trigger] s.push(i)[a];
                    0 <= x < p.capacity() && p.states()[x] == 0 && r.states()[x] == 1
                } by {
                    if a < s.len() {
                        assert(s.push(i)[a] == s[a]);
                    } else {
                        assert(!s.contains(i));
                        assert(q.states()[i] == p.states()[i]);
                    }
                }
            },
            None => {},
        }
    }
}

/// Lemma: once a run of holds finds no empty slot, further holds change nothing.
proof fn lemma_hold_run_saturates(p: PipeView, a: nat, b: nat)
    requires
        a <= b,
        hold_run(p, a).1.hold_target() is None,
    ensures
        hold_run(p, b) == hold_run(p, a),
    decreases b,
{
    if b > a {
        lemma_hold_run_saturates(p, a, (b - 1) as nat);
    }
}

/// Reserves an empty slot of the pipe for a writer: the slot that holding gives.
pub fn reserve_empty_slot(pipe: &mut SlotPipe) -> (r: Result<usize, &'static str>)
    requires
        old(pipe).wf(),
    ensures
        final(pipe).wf(),
        match r {
            Ok(i) => old(pipe)@.hold_target() == Some(i as int) && final(pipe)@ == old(pipe)@.after_hold(i as int),
            Err(m) => old(pipe)@.hold_target() is None && m@ == "没有可用的 EMPTY 槽位"@ && final(pipe)@ == old(pipe)@,
        },
{
    match pipe.hold() {
        Some(i) => Ok(i),
        None => Err("没有可用的 EMPTY 槽位"),
    }
}

impl Scheduler {
    /// A scheduler that has seen no request.
    pub fn new() -> (s: Scheduler)
        ensures
            s.last_counter() == 0,
    {
        Scheduler { last_counter: 0 }
    }

    /// The request counter last seen.
    pub closed spec fn last_counter(&self) -> i64 {
        self.last_counter
    }

    /// The request counter last seen.
    pub fn last_seen(&self) -> (r: i64)
        ensures
            r == self.last_counter(),
    {
        self.last_counter
    }

    /// The first part of a tick, with the request counter at `current`: where it grew
    /// since last seen, one slot is reserved for each new request until none is left.
    /// Where the receiving side of the slot channel is gone (`channel_open` false), the
    /// first slot reserved cannot be handed out: it stays reserved, none is counted, and
    /// reserving stops.
    pub fn reserve_for_requests(&self, pipe: &mut SlotPipe, current: i64, channel_open: bool) -> (p: ReservePlan)
        requires
            old(pipe).wf(),
        ensures
            final(pipe).wf(),
            current <= self.last_counter() ==> p.slots@.len() == 0 && p.processed == 0 && final(pipe)@ == old(pipe)@,
            current > self.last_counter() ==> p.slots@.len() <= wanted_count(current, self.last_counter()),
            channel_open ==> p.processed == p.slots@.len(),
            !channel_open ==> p.processed == 0 && p.slots@.len() <= 1,
            final(pipe)@.capacity() == old(pipe)@.capacity(),
            forall|k: int|
                0 <= k < p.slots@.len() ==> p.slots@[k] < old(pipe)@.capacity() && old(
                pipe)@.states()[#[trigger] p.slots@[k] as int] == 0 && final(pipe)@.states()[p.slots@[k] as int] == 1,
            forall|j: int|
                0 <= j < old(pipe)@.capacity() && !p.slots@.contains(j as usize) ==> #[trigger] final(
                pipe)@.states()[j] == old(pipe)@.states()[j],
            current > self.last_counter() && p.slots@.len() < wanted_count(current, self.last_counter()) && (
            channel_open || p.slots@.len() == 0) ==> final(pipe)@.hold_target() is None,
            p.slots@.map_values(|i: usize| i as int) == hold_run(old(pipe)@, p.slots@.len()).0,
            final(pipe)@ == hold_run(old(pipe)@, p.slots@.len()).1,
            current > self.last_counter() ==> hold_run(
                old(pipe)@,
                if channel_open { wanted_count(current, self.last_counter()) as nat } else { 1 },
            ) == (p.slots@.map_values(|i: usize| i as int), final(pipe)@),
    {
        let mut slots: Vec<usize> = Vec::new();
        if current <= self.last_counter {
            return ReservePlan { slots, processed: 0 };
        }
        let wanted: i64 = if self.last_counter < 0 && current > i64::MAX + self.last_counter {
            i64::MAX
        } else {
            current - self.last_counter
        };
        let mut processed: i64 = 0;
        let mut tried: i64 = 0;
        let ghost start = pipe@;
        while tried < wanted
            invariant_except_break
                !channel_open ==> tried == 0,
            invariant
                0 <= tried <= wanted,
                pipe.wf(),
                slots@.len() == tried,
                processed == if channel_open { tried } else { 0 },
                start == old(pipe)@,
                pipe@.capacity() == start.capacity(),
                forall|k: int|
                    0 <= k < slots@.len() ==> slots@[k] < start.capacity() && start.states()[
                    #[trigger] slots@[k] as int] == 0 && pipe@.states()[slots@[k] as int] == 1,
                forall|j: int|
                    0 <= j < start.capacity() && !slots@.contains(j as usize) ==> #[trigger] pipe@.states()[j] == start.states()[j],
                slots@.map_values(|i: usize| i as int) == hold_run(start, slots@.len()).0,
                pipe@ == hold_run(start, slots@.len()).1,
            ensures
                0 <= tried <= wanted,
                pipe.wf(),
                slots@.len() == tried,
                processed == if channel_open { tried } else { 0 },
                !channel_open ==> tried <= 1,
                pipe@.capacity() == start.capacity(),
                forall|k: int|
                    0 <= k < slots@.len() ==> slots@[k] < start.capacity() && start.states()[
                    #[trigger] slots@[k] as int] == 0 && pipe@.states()[slots@[k] as int] == 1,
                forall|j: int|
                    0 <= j < start.capacity() && !slots@.contains(j as usize) ==> #[trigger] pipe@.states()[j] == start.states()[j],
                tried < wanted && (channel_open || tried == 0) ==> pipe@.hold_target() is None,
                slots@.map_values(|i: usize| i as int) == hold_run(start, slots@.len()).0,
                pipe@ == hold_run(start, slots@.len()).1,
            decreases wanted - tried,
        {
            let ghost before = pipe@;
            let ghost before_slots = slots@;
            proof {
                lemma_hold_fails_iff_no_empty_slot(before);
            }
            match reserve_empty_slot(pipe) {
                Ok(i) => {
                    slots.push(i);
                    proof {
                        assert(slots@.map_values(|x: usize| x as int) =~= before_slots.map_values(
                            |x: usize| x as int,
                        ).push(i as int));
                        assert(pipe@.states() =~= before.states().update(i as int, 1));
                        assert forall|j: int|
                            0 <= j < start.capacity() && !slots@.contains(j as usize) implies #[trigger] pipe@.states()[j] == start.states()[j] by {
                            assert(!before_slots.contains(j as usize)) by {
                                if before_slots.contains(j as usize) {
                                    let k = choose|k: int| 0 <= k < before_slots.len() && before_slots[k] == j as usize;
                                    assert(slots@[k] == j as usize);
                                }
                            }
                            assert(slots@[before_slots.len() as int] == i);
                            assert(j != i);
                        }
                        assert forall|k: int| 0 <= k < slots@.len() implies slots@[k] < start.capacity() && start.states()[
                            #[trigger] slots@[k] as int] == 0 && pipe@.states()[slots@[k] as int] == 1 by {
                            if k < before_slots.len() {
                                assert(slots@[k] == before_slots[k]);
                                assert(before.states()[before_slots[k] as int] == 1);
                            } else {
                                assert(!before_slots.contains(i));
                            }
                        }
                    }
                    tried = tried + 1;
                    if !channel_open {
                        break;
                    }
                    processed = processed + 1;
                },
                Err(_) => {
                    break;
                },
            }
        }
        proof {
            let k: nat = if channel_open { wanted as nat } else { 1 };
            if slots@.len() < k {
                lemma_hold_run_saturates(start, slots@.len(), k);
            }
        }
        ReservePlan { slots, processed }
    }

    /// The end of the first part of a tick, with the counter at `current` when the tick
    /// began and at `reloaded` after the requests served were taken off it.
    pub fn settle(&mut self, current: i64, reloaded: i64)
        ensures
            final(self).last_counter() == if current > old(self).last_counter() {
                reloaded
            } else if current < old(self).last_counter() {
                current
            } else {
                old(self).last_counter()
            },
    {
        if current > self.last_counter {
            self.last_counter = reloaded;
        } else if current < self.last_counter {
            self.last_counter = current;
        }
    }

    /// The second part of a tick: while requests wait (`current` > 0), a slot freed
    /// since is reserved for one of them.
    pub fn reserve_released(&self, pipe: &mut SlotPipe, current: i64) -> (r: Option<usize>)
        requires
            old(pipe).wf(),
        ensures
            final(pipe).wf(),
            current <= 0 ==> r is None && final(pipe)@ == old(pipe)@,
            current > 0 ==> match r {
                Some(i) => old(pipe)@.hold_target() == Some(i as int) && final(pipe)@ == old(pipe)@.after_hold(i as int),
                None => old(pipe)@.hold_target() is None && final(pipe)@ == old(pipe)@,
            },
    {
        if current > 0 {
            match reserve_empty_slot(pipe) {
                Ok(i) => Some(i),
                Err(_) => None,
            }
        } else {
            None
        }
    }

    /// Records the counter as read after a freed slot was handed out.
    pub fn seen(&mut self, reloaded: i64)
        ensures
            final(self).last_counter() == reloaded,
    {
        self.last_counter = reloaded;
    }
}

/// The scheduler and what it works on, as a run of its ticks sees them: the counter it
/// last saw, the counter of waiting requests, and the pipe.
pub struct SchedulerState {
    pub last: int,
    pub counter: int,
    pub pipe: PipeView,
}

/// What happens in a run: requests arrive, others (writers, workers) change the pipe, or
/// the scheduler ticks.
pub enum SchedulerStep {
    /// `n` requests arrive: the counter goes up by `n`.
    Arrive(nat),
    /// Others leave the pipe as `p` (a pipe of the same capacity).
    Others(PipeView),
    /// A tick of the scheduler with the slot channel open or closed; `mid` requests
    /// arrive between the counter's decrease and its reload after the first part, and
    /// `late` ones before the reload at the end of the tick.
    Tick { open: bool, mid: nat, late: nat },
}

/// One tick, as the tick's parts do it in turn (`reserve_for_requests`, taking the
/// slots handed out off the counter, `settle`, `reserve_released`, taking the slot
/// handed out off the counter, `seen`): the state after it, and the slots it hands out
/// on the channel, in order. Where the channel is closed, a slot it reserves is not
/// handed out.
pub open spec fn tick_step(s: SchedulerState, open: bool, mid: nat, late: nat) -> (SchedulerState, Seq<int>) {
    let current = s.counter;
    let (held, q) = if current > s.last {
        hold_run(s.pipe, if open { (current - s.last) as nat } else { 1 })
    } else {
        (Seq::empty(), s.pipe)
    };
    let sent: Seq<int> = if open { held } else { Seq::empty() };
    let reloaded = s.counter - sent.len() + mid;
    let last = if current > s.last {
        reloaded
    } else if current < s.last {
        current
    } else {
        s.last
    };
    match q.hold_target() {
        Some(i) => if current > 0 && open {
            (
                SchedulerState { last: reloaded - 1 + late, counter: reloaded - 1 + late, pipe: q.after_hold(i) },
                sent.push(i),
            )
        } else if current > 0 {
            (SchedulerState { last, counter: reloaded + late, pipe: q.after_hold(i) }, sent)
        } else {
            (SchedulerState { last, counter: reloaded + late, pipe: q }, sent)
        },
        None => (SchedulerState { last, counter: reloaded + late, pipe: q }, sent),
    }
}

/// One step of a run: the state after it and the slots handed out in it.
pub open spec fn run_step(s: SchedulerState, e: SchedulerStep) -> (SchedulerState, Seq<int>) {
    match e {
        SchedulerStep::Arrive(n) => (SchedulerState { counter: s.counter + n, ..s }, Seq::empty()),
        SchedulerStep::Others(p) => if p.wf() && p.capacity() == s.pipe.capacity() {
            (SchedulerState { pipe: p, ..s }, Seq::empty())
        } else {
            (s, Seq::empty())
        },
        SchedulerStep::Tick { open, mid, late } => tick_step(s, open, mid, late),
    }
}

/// A run: the state after its steps and the slots handed out, in order.
pub open spec fn scheduler_run(s: SchedulerState, es: Seq<SchedulerStep>) -> (SchedulerState, Seq<int>)
    decreases es.len(),
{
    if es.len() == 0 {
        (s, Seq::empty())
    } else {
        let (t, sent) = scheduler_run(s, es.drop_last());
        let (u, more) = run_step(t, es.last());
        (u, sent + more)
    }
}

/// The requests that arrive in a step.
pub open spec fn step_arrivals(e: SchedulerStep) -> nat {
    match e {
        SchedulerStep::Arrive(n) => n,
        SchedulerStep::Others(_) => 0,
        SchedulerStep::Tick { mid, late, .. } => mid + late,
    }
}

/// The requests that arrive in a run.
pub open spec fn run_arrivals(es: Seq<SchedulerStep>) -> nat
    decreases es.len(),
{
    if es.len() == 0 {
        0
    } else {
        run_arrivals(es.drop_last()) + step_arrivals(es.last())
    }
}

/// Whether the slots a step hands out are handed out as they should be: each one is a
/// slot of the pipe that was `EMPTY` before the step and is held after it, and none
/// twice.
pub open spec fn handed_out_well(s: SchedulerState, e: SchedulerStep) -> bool {
    let (t, sent) = run_step(s, e);
    &&& forall|a: int|
        0 <= a < sent.len() ==> {
            let i = #[trigger] sent[a];
            0 <= i < s.pipe.capacity() && s.pipe.states()[i] == 0 && t.pipe.states()[i] == 1
        }
    &&& forall|a: int, b: int| 0 <= a < b < sent.len() ==> sent[a] != sent[b]
}

/// Lemma: one step keeps the pipe well formed, takes one off the counter for each slot
/// it hands out and nothing else, and hands its slots out well.
proof fn lemma_run_step(s: SchedulerState, e: SchedulerStep)
    requires
        s.pipe.wf(),
    ensures
        run_step(s, e).0.pipe.wf(),
        run_step(s, e).0.pipe.capacity() == s.pipe.capacity(),
        run_step(s, e).0.counter == s.counter + step_arrivals(e) - run_step(s, e).1.len(),
        handed_out_well(s, e),
{
    if let SchedulerStep::Tick { open, mid, late } = e {
        let current = s.counter;
        let k: nat = if current > s.last {
            if open { (current - s.last) as nat } else { 1 }
        } else {
            0
        };
        lemma_hold_run(s.pipe, k);
        let (held, q) = hold_run(s.pipe, k);
        assert(current <= s.last ==> held =~= Seq::<int>::empty() && q == s.pipe);
        lemma_hold_fails_iff_no_empty_slot(q);
        let sent: Seq<int> = if open { held } else { Seq::empty() };
        if let Some(i) = q.hold_target() {
            if current > 0 {
                lemma_hold_run(q, 1);
                assert(hold_run(q, 0) == (Seq::<int>::empty(), q));
                assert(hold_run(q, 1).0 =~= seq![i]);
                let r = q.after_hold(i);
                assert(r.states() =~= q.states().update(i, 1));
                assert(!held.contains(i)) by {
                    if held.contains(i) {
                        let a = choose|a: int| 0 <= a < held.len() && held[a] == i;
                        assert(q.states()[held[a]] == 1);
                    }
                }
                assert(s.pipe.states()[i] == 0);
                if open {
                    let out = sent.push(i);
                    assert forall|a: int| 0 <= a < out.len() implies {
                        let x = #[trigger] out[a];
                        0 <= x < s.pipe.capacity() && s.pipe.states()[x] == 0 && r.states()[x] == 1
                    } by {
                        if a < sent.len() {
                            assert(out[a] == held[a]);
                        }
                    }
                    assert forall|a: int, b: int| 0 <= a < b < out.len() implies out[a] != out[b] by {
                        if b == sent.len() {
                            assert(out[a] == held[a]);
                        }
                    }
                }
            }
        }
    }
}

/// Law of a run of the scheduler: however requests arrive and others change the pipe
/// between and within its ticks, the counter goes down by exactly one for each slot
/// handed out on the channel and at no other time, and every step hands out only slots
/// that were `EMPTY` just before it and are held after it, none twice in a step.
pub proof fn lemma_scheduler_run(s: SchedulerState, es: Seq<SchedulerStep>)
    requires
        s.pipe.wf(),
    ensures
        scheduler_run(s, es).0.pipe.wf(),
        scheduler_run(s, es).0.pipe.capacity() == s.pipe.capacity(),
        scheduler_run(s, es).0.counter == s.counter + run_arrivals(es) - scheduler_run(s, es).1.len(),
        forall|k: int|
            0 <= k < es.len() ==> #[trigger] handed_out_well(scheduler_run(s, es.take(k)).0, es[k]),
    decreases es.len(),
{
    if es.len() > 0 {
        let d = es.drop_last();
        lemma_scheduler_run(s, d);
        let t = scheduler_run(s, d).0;
        lemma_run_step(t, es.last());
        assert forall|k: int| 0 <= k < es.len() implies #[trigger] handed_out_well(
            scheduler_run(s, es.take(k)).0,
            es[k],
        ) by {
            if k < d.len() {
                assert(es.take(k) =~= d.take(k));
                assert(es[k] == d[k]);
                assert(handed_out_well(scheduler_run(s, d.take(k)).0, d[k]));
            } else {
                assert(es.take(k) =~= d);
            }
        }
    }
}

/// Where a request for a slot is served from: the slot channel, where it holds one, or
/// by waiting after the counter of waiting requests is raised.
#[derive(Debug)]
pub enum SlotRequest {
    /// A slot was waiting in the channel.
    Ready(usize),
    /// Raise the counter and wait for a slot.
    RaiseAndWait,
}

/// The first step of asking for a slot: take one from the channel if there is one.
pub fn request_slot(waiting: Option<usize>) -> (r: SlotRequest)
    ensures
        match waiting {
            Some(i) => r matches SlotRequest::Ready(j) && j == i,
            None => r is RaiseAndWait,
        },
{
    match waiting {
        Some(i) => SlotRequest::Ready(i),
        None => SlotRequest::RaiseAndWait,
    }
}

/// The end of waiting for a slot: the slot, or the error when the channel closed.
pub fn slot_after_wait(received: Option<usize>) -> (r: Result<usize, &'static str>)
    ensures
        match received {
            Some(i) => r == Ok::<usize, &'static str>(i),
            None => r matches Err(m) && m@ == "槽位通道已关闭"@,
        },
{
    match received {
        Some(i) => Ok(i),
        None => Err("槽位通道已关闭"),
    }
}

} // verus!
