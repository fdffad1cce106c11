use mi7::entry::{
    authenticate, gather_params, needs_auth, query_headers, request_slot, slot_after_wait, HandlerAction, HandlerEvent,
    RequestFlow, Scheduler, SlotRequest, Stage,
};
use mi7::shared_slot::SlotPipe;

fn error_of(a: &HandlerAction) -> (u16, String) {
    match a {
        HandlerAction::Respond(e) => (e.code, e.error.clone()),
        _ => panic!("expected an error answer"),
    }
}

#[test]
fn open_paths_need_no_authorization() {
    assert!(!needs_auth("/health"));
    assert!(!needs_auth("/status"));
    assert!(!needs_auth("/ping"));
    assert!(needs_auth("/api/x"));
    assert!(authenticate("anything"));
}

#[test]
fn missing_authorization_is_refused() {
    let (flow, a) = RequestFlow::start("/api", "GET", "");
    assert!(flow.stage == Stage::Done);
    assert_eq!(error_of(&a), (401, "缺少 authorization header".to_string()));
}

#[test]
fn failed_authorization_is_refused() {
    let (mut flow, a) = RequestFlow::start("/api", "GET", "token");
    assert!(matches!(a, HandlerAction::Authenticate(ref t) if t == "token"));
    let a = flow.step(HandlerEvent::Authenticated(false));
    assert_eq!(error_of(&a), (401, "鉴权失败".to_string()));
}

#[test]
fn post_request_reaches_the_worker() {
    let (mut flow, a) = RequestFlow::start("/api", "POST", "t");
    assert!(matches!(a, HandlerAction::Authenticate(_)));
    assert!(matches!(flow.step(HandlerEvent::Authenticated(true)), HandlerAction::ReadBody));
    let a = flow.step(HandlerEvent::BodyRead(Ok("{}".to_string())));
    assert!(matches!(a, HandlerAction::Encode(Some(ref b)) if b == "{}"));
    assert!(matches!(flow.step(HandlerEvent::Encoded(Ok(()))), HandlerAction::SignalAndHold));
    assert!(matches!(flow.step(HandlerEvent::Held(None)), HandlerAction::WaitAndHold));
    assert!(matches!(flow.step(HandlerEvent::Held(Some(4))), HandlerAction::Send(4)));
    assert!(matches!(flow.step(HandlerEvent::Sent(true)), HandlerAction::AwaitReply));
    assert!(matches!(flow.step(HandlerEvent::Replied(true)), HandlerAction::RespondReply));
    assert!(flow.stage == Stage::Done);
}

#[test]
fn status_request_answers_at_once() {
    let (mut flow, a) = RequestFlow::start("/status", "GET", "");
    assert!(matches!(a, HandlerAction::Encode(None)));
    flow.step(HandlerEvent::Encoded(Ok(())));
    flow.step(HandlerEvent::Held(Some(0)));
    assert!(matches!(flow.step(HandlerEvent::Sent(true)), HandlerAction::RespondStatus));
}

#[test]
fn holding_gives_up_after_a_hundred_tries() {
    let (mut flow, _) = RequestFlow::start("/ping", "GET", "");
    flow.step(HandlerEvent::Encoded(Ok(())));
    for _ in 0..99 {
        assert!(matches!(flow.step(HandlerEvent::Held(None)), HandlerAction::WaitAndHold));
    }
    let a = flow.step(HandlerEvent::Held(None));
    assert_eq!(error_of(&a), (503, "服务器繁忙，等待槽位超时".to_string()));
}

#[test]
fn other_failures() {
    let (mut flow, _) = RequestFlow::start("/ping", "PUT", "");
    let a = flow.step(HandlerEvent::BodyRead(Err("boom".to_string())));
    assert_eq!(error_of(&a), (400, "读取请求体失败: boom".to_string()));
    let (mut flow, _) = RequestFlow::start("/ping", "GET", "");
    let a = flow.step(HandlerEvent::Encoded(Err("bad".to_string())));
    assert_eq!(error_of(&a), (500, "序列化失败: bad".to_string()));
    let (mut flow, _) = RequestFlow::start("/ping", "GET", "");
    flow.step(HandlerEvent::Encoded(Ok(())));
    flow.step(HandlerEvent::Held(Some(1)));
    assert_eq!(error_of(&flow.step(HandlerEvent::Sent(false))), (500, "写入槽位失败".to_string()));
    let (mut flow, _) = RequestFlow::start("/ping", "GET", "");
    flow.step(HandlerEvent::Encoded(Ok(())));
    flow.step(HandlerEvent::Held(Some(1)));
    flow.step(HandlerEvent::Sent(true));
    assert_eq!(error_of(&flow.step(HandlerEvent::Replied(false))), (500, "请求处理超时".to_string()));
    assert!(matches!(flow.step(HandlerEvent::Sent(true)), HandlerAction::Nothing));
}

#[test]
fn scheduler_reserves_one_slot_per_new_request() {
    let mut pipe = SlotPipe::new(3, 16);
    let mut s = Scheduler::new();
    let plan = s.reserve_for_requests(&mut pipe, 2, true);
    assert_eq!(plan.slots, vec![0, 1]);
    assert_eq!(plan.processed, 2);
    s.settle(2, 0);
    assert_eq!(s.last_seen(), 0);
    let plan = s.reserve_for_requests(&mut pipe, 5, true);
    assert_eq!(plan.slots, vec![2]);
    assert_eq!(s.reserve_released(&mut pipe, 4), None);
    assert_eq!(s.reserve_released(&mut pipe, 0), None);
}

#[test]
fn scheduler_with_closed_channel_counts_nothing() {
    let mut pipe = SlotPipe::new(3, 16);
    let s = Scheduler::new();
    let plan = s.reserve_for_requests(&mut pipe, 3, false);
    assert_eq!(plan.slots.len(), 1);
    assert_eq!(plan.processed, 0);
}

#[test]
fn slot_requests() {
    assert!(matches!(request_slot(Some(3)), SlotRequest::Ready(3)));
    assert!(matches!(request_slot(None), SlotRequest::RaiseAndWait));
    assert_eq!(slot_after_wait(Some(2)), Ok(2));
    assert_eq!(slot_after_wait(None), Err("槽位通道已关闭"));
}

#[test]
fn query_parameters_as_json() {
    assert_eq!(query_headers(None), None);
    assert_eq!(query_headers(Some("")), None);
    assert_eq!(query_headers(Some("a=%20x")), Some("{\"a\":\" x\"}".to_string()));
    let two = query_headers(Some("a=1&b=2&a=3")).unwrap();
    let v: serde_json::Value = serde_json::from_str(&two).unwrap();
    assert_eq!(v["a"], "3");
    assert_eq!(v["b"], "2");
    assert_eq!(v.as_object().unwrap().len(), 2);
}

#[test]
fn parameters_keep_first_place_and_last_value() {
    let pairs = vec![
        ("a".to_string(), "1".to_string()),
        ("b".to_string(), "2".to_string()),
        ("a".to_string(), "3".to_string()),
    ];
    let got = gather_params(&pairs);
    assert_eq!(
        got,
        vec![("a".to_string(), "3".to_string()), ("b".to_string(), "2".to_string())]
    );
    assert_eq!(gather_params(&Vec::new()), Vec::new());
}

#[test]
fn query_text_is_an_object() {
    let t = query_headers(Some("x=1")).unwrap();
    assert!(t.starts_with('{') && t.ends_with('}'));
    assert_eq!(t, "{\"x\":\"1\"}");
}

#[test]
fn one_tick_hands_out_each_slot_once() {
    let mut pipe = SlotPipe::new(4, 8);
    let s = Scheduler::new();
    let plan = s.reserve_for_requests(&mut pipe, 10, true);
    let mut seen = plan.slots.clone();
    seen.sort();
    seen.dedup();
    assert_eq!(seen.len(), plan.slots.len());
    assert_eq!(plan.slots, vec![0, 1, 2, 3]);
    assert_eq!(plan.processed, 4);
    let again = s.reserve_for_requests(&mut pipe, 10, true);
    assert!(again.slots.is_empty());
}

#[test]
fn counter_drops_by_the_slots_handed_out_over_ticks() {
    let mut pipe = SlotPipe::new(3, 8);
    let mut s = Scheduler::new();
    let mut counter: i64 = 0;
    let mut handed: Vec<usize> = Vec::new();
    for arrivals in [2i64, 0, 3, 1] {
        counter += arrivals;
        let current = counter;
        let plan = s.reserve_for_requests(&mut pipe, current, true);
        handed.extend(plan.slots.iter().copied());
        counter -= plan.processed;
        s.settle(current, counter);
        if let Some(i) = s.reserve_released(&mut pipe, current) {
            handed.push(i);
            counter -= 1;
            s.seen(counter);
        }
    }
    assert_eq!(handed, vec![0, 1, 2]);
    assert_eq!(counter, 6 - handed.len() as i64);
}
