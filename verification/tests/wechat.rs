use pi::wechat::{
    backoff, error_notice, handle_update, is_stop, login_ended, poll_failed, send_failed, split,
    ticket_came, tool_line, Answer, Bridge, Event, Inbound, Login, Message, Outbound, Start, State, Ticket,
    MESSAGE_LIMIT, NO_TOKEN, OFF_MESSAGE,
};

#[test]
fn backoff_rests_after_three_failures() {
    // Callers count the failure first, then ask how long to wait.
    let mut n = 0u32;
    n += 1;
    assert_eq!(backoff(&mut n), 2);
    n += 1;
    assert_eq!(backoff(&mut n), 2);
    n += 1;
    assert_eq!(backoff(&mut n), 30);
    // The counter reset, so the next failure starts over at 2s.
    n += 1;
    assert_eq!(backoff(&mut n), 2);
}

#[test]
fn a_stop_message_is_classified_before_anything_else() {
    for stop in ["/stop", "/esc", " /stop "] {
        assert!(is_stop(stop));
    }
    assert!(!is_stop("stop the run"));
}

#[test]
fn a_message_within_the_budget_goes_out_whole_and_unmarked() {
    let text = "short enough";
    assert_eq!(split(text, 100), vec![text.to_string()]);
}

#[test]
fn a_long_message_breaks_at_paragraphs_and_carries_its_count() {
    let para = "x".repeat(60);
    let text = format!("{para}\n\n{para}\n\n{para}");
    let pieces = split(&text, 100);
    assert_eq!(pieces.len(), 3);
    for (i, piece) in pieces.iter().enumerate() {
        assert!(piece.starts_with(&format!("({}/3) ", i + 1)), "{piece}");
        assert!(piece.len() <= 100, "{} bytes", piece.len());
        assert!(piece.ends_with('x'), "the break ate content: {piece}");
    }
}

#[test]
fn a_run_with_no_boundary_is_cut_on_a_character_and_rejoins_exactly() {
    let text = "中".repeat(200);
    let pieces = split(&text, 100);
    assert!(pieces.len() > 1);
    let rejoined: String = pieces
        .iter()
        .map(|p| p.split_once(") ").expect("marker").1)
        .collect();
    assert_eq!(rejoined, text);
}

#[test]
fn a_hard_cut_keeps_the_indentation_it_lands_on() {
    let text = format!("{}\n    indented tail", "x".repeat(120));
    let pieces = split(&text, 60);
    let tail = pieces.last().expect("a piece");
    assert!(tail.ends_with("    indented tail"), "{tail}");
}

#[test]
fn a_budget_shorter_than_one_character_still_advances() {
    let pieces = split("中文中文", 1);
    assert_eq!(pieces.len(), 4);
}

#[test]
fn a_boundary_too_early_in_the_budget_is_not_worth_taking() {
    // The only newline sits at byte 5; cutting there would send a
    // five-byte message and leave the rest just as long as before.
    let text = format!("head\n{}", "x".repeat(200));
    let pieces = split(&text, 100);
    assert!(pieces[0].len() > 50, "{}", pieces[0]);
}

#[test]
fn a_tool_line_carries_the_summarized_argument() {
    assert_eq!(tool_line("edit", "crates/cli/src/wechat.rs"), "⚙ edit crates/cli/src/wechat.rs");
    assert_eq!(tool_line("read", ""), "⚙ read");
}

fn started(name: &str) -> Event {
    Event::ToolStart { name: name.into(), summary: String::new() }
}

fn turn() -> Event {
    Event::TurnStart { turn: 1 }
}

#[test]
fn calls_inside_the_interval_are_held_rather_than_dropped() {
    let mut b = Bridge::new();
    b.observe(&turn(), 0, false);
    // Three in the same instant: the shape a parallel call arrives in, and the
    // one a plain rate limit would throw away.
    for name in ["read", "grep", "bash"] {
        b.observe(&started(name), 0, false);
    }
    assert_eq!(b.tool_buf, ["⚙ grep", "⚙ bash"]);
    b.finish_turn(false, false);
    assert!(b.tool_buf.is_empty(), "{:?}", b.tool_buf);
}

#[test]
fn a_new_turn_reopens_the_interval() {
    let mut b = Bridge::new();
    b.observe(&turn(), 0, false);
    b.observe(&started("read"), 0, false);
    assert!(b.last_tool.is_some());
    b.observe(&turn(), 0, false);
    b.observe(&started("grep"), 0, false);
    assert!(b.tool_buf.is_empty(), "{:?}", b.tool_buf);
}

/// The lane-switch case: the turn's events stop reaching the bridge, so
/// `finish_turn` never runs and the held lines outlive their turn.
#[test]
fn a_turn_that_never_ended_leaves_nothing_for_the_next_one() {
    let mut b = Bridge::new();
    b.observe(&turn(), 0, false);
    b.observe(&started("read"), 0, false);
    b.observe(&started("grep"), 0, false);
    assert_eq!(b.tool_buf, ["⚙ grep"]);
    b.observe(&turn(), 0, false);
    assert!(b.tool_buf.is_empty(), "{:?}", b.tool_buf);
}

#[test]
fn an_error_line_drains_the_held_calls_first() {
    let mut b = Bridge::new();
    b.observe(&turn(), 0, false);
    b.observe(&started("read"), 0, false);
    b.observe(&started("grep"), 0, false);
    assert_eq!(b.tool_buf, ["⚙ grep"]);
    b.observe(&Event::Warning("careful".into()), 0, false);
    assert!(b.tool_buf.is_empty(), "{:?}", b.tool_buf);
}

fn line(s: &str) -> Outbound {
    Outbound::Line(s.into())
}

#[test]
fn a_turn_reads_on_the_phone_in_the_order_it_happened() {
    let mut b = Bridge::new();
    assert_eq!(b.observe(&turn(), 0, true), vec![Outbound::Typing(true)]);
    assert_eq!(b.observe(&started("read"), 10, true), vec![line("⚙ read")]);
    assert_eq!(b.observe(&started("grep"), 20, true), vec![]);
    assert_eq!(b.observe(&started("bash"), 30, true), vec![]);
    // The interval is over: what was held goes out with the call that ends it.
    assert_eq!(b.observe(&started("edit"), 5010, true), vec![line("⚙ grep\n⚙ bash\n⚙ edit")]);
    assert_eq!(b.observe(&started("write"), 5020, true), vec![]);
    b.observe(&Event::TextDelta("all ".into()), 5030, true);
    b.observe(&Event::TextDelta("done".into()), 5040, true);
    assert_eq!(
        b.observe(&Event::Done, 5050, true),
        vec![line("⚙ write"), line("all done"), Outbound::Typing(false)]
    );
    assert_eq!(b.finish_turn(false, true), vec![]);
}

#[test]
fn a_stopped_turn_sends_what_it_has_and_says_so() {
    let mut b = Bridge::new();
    b.observe(&turn(), 0, true);
    b.observe(&Event::TextDelta("half".into()), 1, true);
    assert_eq!(
        b.finish_turn(true, true),
        vec![line("half\n\n(stopped)"), Outbound::Typing(false)]
    );
}

#[test]
fn notices_read_as_they_should() {
    let mut b = Bridge::new();
    let failed = Event::ToolEnd { name: "bash".into(), is_error: true, preview: "no such file".into() };
    assert_eq!(b.observe(&failed, 0, true), vec![line("✗ bash failed — no such file")]);
    let long = Event::ToolEnd { name: "bash".into(), is_error: true, preview: "y".repeat(100) };
    assert_eq!(
        b.observe(&long, 0, true),
        vec![line(&format!("✗ bash failed — {}…", "y".repeat(79)))]
    );
    let fine = Event::ToolEnd { name: "bash".into(), is_error: false, preview: "ok".into() };
    assert_eq!(b.observe(&fine, 0, true), vec![]);
    let denied = Event::ToolDenied { name: "bash".into(), reason: "no".into() };
    assert_eq!(b.observe(&denied, 0, true), vec![line("✗ bash denied — no")]);
    let retry = Event::Retrying { attempt: 2, delay_ms: 4500, reason: "busy".into() };
    assert_eq!(b.observe(&retry, 0, true), vec![line("↻ retry 2 in 4s — busy")]);
    let compact = Event::Compacted { before: 9000, after: 400 };
    assert_eq!(b.observe(&compact, 0, true), vec![line("history compacted 9000 → 400 tokens")]);
    assert_eq!(b.observe(&Event::TurnStart { turn: 2 }, 0, true), vec![]);
    assert_eq!(b.observe(&Event::Other, 0, true), vec![]);
}

#[test]
fn an_ended_bridge_sends_nothing() {
    let mut b = Bridge::new();
    b.observe(&turn(), 0, true);
    b.observe(&Event::TextDelta("held".into()), 1, true);
    assert_eq!(b.off(), "wechat bridge stopped — /wechat on to reconnect");
    assert_eq!(b.out, "");
    assert_eq!(b.observe(&Event::Warning("late".into()), 2, false), vec![]);
    assert_eq!(b.finish_turn(false, false), vec![]);
    assert_eq!(Bridge::status(false), OFF_MESSAGE);
    assert_eq!(Bridge::status(true), "wechat: connected — /wechat off to disconnect");
    assert_eq!(Bridge::on(true, false).0, Start::Nothing);
    assert_eq!(Bridge::on(false, true).0, Start::Poll);
    assert_eq!(Bridge::on(false, false).0, Start::Login);
}

fn state() -> State {
    State {
        token: Some("t".into()),
        base_url: String::new(),
        peer: None,
        get_updates_buf: String::new(),
        context_token: Some("old".into()),
    }
}

fn message(text: &str, context: Option<&str>) -> Message {
    Message {
        message_type: 1,
        text: text.into(),
        from_user_id: "peer".into(),
        context_token: context.map(|c| c.to_string()),
    }
}

#[test]
fn messages_go_to_the_surface_and_a_stop_goes_alone() {
    let mut s = state();
    let mut failures = 2;
    let mut timeout = 35_000;
    let other = Message { message_type: 2, ..message("not a user", None) };
    let r = handle_update(
        &mut s,
        Answer::Messages {
            buf: "next".into(),
            timeout_ms: Some(20_000),
            msgs: vec![other, message("", None), message("hello", None), message(" /stop", Some("new"))],
        },
        &mut failures,
        &mut timeout,
    );
    assert_eq!(r.inbound, vec![Inbound::Text { text: "hello".into() }, Inbound::Stop]);
    assert!(r.save);
    assert_eq!((failures, timeout), (0, 20_000));
    assert_eq!(s.peer.as_deref(), Some("peer"));
    // A tokenless message keeps the last one, and a stop brings none.
    assert_eq!(s.context_token.as_deref(), Some("old"));
    assert_eq!(s.get_updates_buf, "next");
    assert_eq!(s.address(), Some(("t".into(), "peer".into(), "old".into())));
}

#[test]
fn an_empty_answer_changes_nothing() {
    let mut s = state();
    let before = s.clone();
    let mut failures = 0;
    let mut timeout = 35_000;
    let quiet = Answer::Messages { buf: String::new(), timeout_ms: Some(0), msgs: vec![] };
    let r = handle_update(&mut s, quiet, &mut failures, &mut timeout);
    assert!(!r.save && r.inbound.is_empty());
    assert_eq!((s, timeout), (before, 35_000));
}

#[test]
fn a_stale_token_is_reported_and_gone() {
    let mut s = state();
    let mut failures = 1;
    let mut timeout = 1;
    let r = handle_update(&mut s, Answer::Stale, &mut failures, &mut timeout);
    assert!(r.save);
    assert_eq!(s.token, None);
    assert_eq!(
        s.poll_with(),
        Err("wechat: no token — /wechat off, then /wechat on to log in again".into())
    );
    assert_eq!(s.address(), None);
    assert_eq!(
        r.inbound,
        vec![Inbound::Notice("wechat token expired — /wechat off, then /wechat on to rescan".into())]
    );
}

#[test]
fn an_error_backs_off() {
    let mut s = state();
    let mut failures = 2;
    let mut timeout = 1;
    let no = Answer::Error { ret: -1, errcode: Some(-5), errmsg: Some("no \"way\"\n".into()) };
    let r = handle_update(&mut s, no, &mut failures, &mut timeout);
    assert_eq!((r.rest, failures, r.save), (30, 0, false));
    assert_eq!(
        r.inbound,
        vec![Inbound::Notice(
            "wechat getupdates error: ret=-1 errcode=Some(-5) errmsg=Some(\"no \\\"way\\\"\\n\")"
                .into()
        )]
    );
    assert_eq!(
        error_notice(i64::MIN, None, &None),
        "wechat getupdates error: ret=-9223372036854775808 errcode=None errmsg=None"
    );
    let mut failures = 2;
    let (said, rest) = poll_failed(&mut failures, "timeout");
    assert_eq!(said.as_deref(), Some("wechat getupdates failing — backing off: timeout"));
    assert_eq!((rest, failures), (30, 0));
    assert_eq!(poll_failed(&mut failures, "timeout"), (None, 2));
}

#[test]
fn a_failed_send_names_its_piece() {
    assert_eq!(
        send_failed(0, 1, "503"),
        "wechat send failed: 503 — try sending a message from the phone first"
    );
    assert_eq!(
        send_failed(1, 3, "503"),
        "wechat send failed (piece 2/3): 503 — try sending a message from the phone first"
    );
}

#[test]
fn a_login_starts_over() {
    let s = State::logged_in("fresh".into(), "https://h".into());
    assert_eq!(s.poll_with(), Ok(("fresh".into(), String::new())));
    assert_eq!(s.address(), None);
    assert_eq!(s.base("https://default"), "https://h");
    assert_eq!(state().base("https://default"), "https://default");
}

#[test]
fn every_piece_fits_the_limit_and_only_separators_are_lost() {
    let text: String = (0..4000)
        .map(|i| if i % 17 == 0 { ' ' } else if i % 211 == 0 { '\n' } else { 'é' })
        .collect();
    let pieces = split(&text, MESSAGE_LIMIT);
    assert!(pieces.len() > 1);
    let mut content = String::new();
    for p in &pieces {
        assert!(p.len() <= MESSAGE_LIMIT);
        content.push_str(p.split_once(") ").expect("marker").1);
    }
    let solid = |s: &str| -> String { s.chars().filter(|c| !matches!(c, ' ' | '\n' | '\r')).collect() };
    assert_eq!(solid(&content), solid(&text));
}

#[test]
fn a_message_goes_out_only_with_an_address() {
    let mut s = State::logged_in("t".into(), String::new());
    assert_eq!(s.outgoing("hi", true), None);
    s.peer = Some("p".into());
    assert_eq!(s.outgoing("hi", false), None);
    let letter = s.outgoing("hi", true).unwrap();
    assert_eq!((letter.token.as_str(), letter.peer.as_str()), ("t", "p"));
    assert_eq!(letter.context_token, "");
    assert_eq!(letter.pieces, ["hi"]);
    assert_eq!(s.outgoing(&"a".repeat(MESSAGE_LIMIT + 1), true).unwrap().pieces.len(), 2);
}

#[test]
fn a_ticket_is_asked_for_once() {
    let mut s = State::logged_in("t".into(), String::new());
    let mut kept = None;
    assert_eq!(s.ticket(&kept), Ticket::Nobody);
    s.peer = Some("p".into());
    s.context_token = Some("c".into());
    assert_eq!(
        s.ticket(&kept),
        Ticket::Ask { token: "t".into(), peer: "p".into(), context_token: "c".into() }
    );
    assert_eq!(ticket_came(&mut kept, None), "");
    assert_eq!(kept, None);
    assert_eq!(ticket_came(&mut kept, Some("k".into())), "k");
    assert_eq!(s.ticket(&kept), Ticket::Kept("k".into()));
}

#[test]
fn a_login_says_how_it_ended() {
    assert_eq!(
        login_ended(Login::Stopped),
        (None, "wechat login stopped — /wechat on to start again".to_string())
    );
    assert_eq!(
        login_ended(Login::Failed("no net".into())),
        (None, "wechat login failed: no net".to_string())
    );
    let (state, said) =
        login_ended(Login::Granted { token: "t".into(), base_url: "https://h".into() });
    assert_eq!(said, "wechat connected — polling for messages");
    assert_eq!(state, Some(State::logged_in("t".into(), "https://h".into())));
}

#[test]
fn a_poll_without_a_token_says_how_to_log_in_again() {
    let mut s = state();
    s.token = None;
    assert_eq!(s.poll_with(), Err(NO_TOKEN.into()));
}
