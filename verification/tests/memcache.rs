use ratelimit_rs::handlers::memcache::{
    handle_incr, handle_one, next_state, parse_specification, read_input, serve_default,
    serve_rule, Action, Command, Plan, Reply, State, READ_SIZE,
};
use ratelimit_rs::{Ratelimit, RatelimitCollection};

/// One read, served as a connection serves it: the plan for the read, and
/// the step on the structure that it names.
fn serve(
    read: Option<&[u8]>,
    now: u64,
    ratelimit: &mut Ratelimit,
    collection: &mut RatelimitCollection,
) -> Action {
    match handle_one(read) {
        Plan::Close => Action::Close,
        Plan::Respond(reply) => Action::Respond(reply),
        Plan::Default(key) => Action::Respond(serve_default(&key, now, ratelimit)),
        Plan::Rule(hits, duration, key) => {
            Action::Respond(serve_rule(hits, duration, &key, now, collection))
        }
    }
}

fn key_of(input: &[u8]) -> Option<String> {
    match read_input(input) {
        Ok(Command::Incr(key)) => Some(key),
        Err(()) => None,
    }
}

#[test]
fn test_parse_specification() {
    assert_eq!(parse_specification("toto"), None);
    assert_eq!(parse_specification("1zzb_zo"), None);
    assert_eq!(
        parse_specification("1/2_toto"),
        Some((1, 2000, "toto".to_string()))
    );
    assert_eq!(
        parse_specification("80/200_bar"),
        Some((80, 200_000, "bar".to_string()))
    );
    assert_eq!(parse_specification("1/999999999999999_toto"), None);
    assert_eq!(parse_specification("99999999999999/99_toto"), None);
}

#[test]
fn test_base() {
    let mut rl = Ratelimit::new(1, 1).unwrap();
    let mut xrl = RatelimitCollection::default();

    let action = serve(Some("incr zzz\r\n".as_bytes()), 86_400_000, &mut rl, &mut xrl);

    assert_eq!(action, Action::Respond(Reply::Admitted));
    assert_eq!(Reply::Admitted.text(), "0\r\n");
}

#[test]
fn inline_rule_scenario() {
    let mut rl = Ratelimit::new(1, 1).unwrap();
    let mut xrl = RatelimitCollection::default();
    let request = "incr 1/1000_zzz\r\n".as_bytes();
    let first = serve(Some(request), 86_400_000, &mut rl, &mut xrl);
    let second = serve(Some(request), 86_400_000, &mut rl, &mut xrl);
    match (first, second) {
        (Action::Respond(first), Action::Respond(second)) => {
            assert_eq!(first.text(), "0\r\n");
            assert_eq!(second.text(), "1\r\n");
        }
        _ => panic!("both requests are answered"),
    }
    // The default limiter was not touched; the rule's limiter holds the key.
    assert_eq!(rl.len(), 0);
    assert_eq!(xrl.get_instance(1, 1_000_000).unwrap().len(), 1);
    assert!(!xrl.get_instance(1, 1_000_000).unwrap().hit("zzz", 86_400_000));
}

#[test]
fn a_full_read_is_one_request() {
    assert_eq!(READ_SIZE, 512);
    let mut request = b"incr ".to_vec();
    request.resize(READ_SIZE - 2, b'k');
    request.extend_from_slice(b"\r\n");
    assert_eq!(key_of(&request), Some("k".repeat(READ_SIZE - 7)));
}

#[test]
fn replies_on_the_wire() {
    assert_eq!(Reply::Admitted.text(), "0\r\n");
    assert_eq!(Reply::Denied.text(), "1\r\n");
    assert_eq!(Reply::Error.text(), "ERR\r\n");
}

#[test]
fn specification_numbers() {
    assert_eq!(parse_specification("007/001_k"), Some((7, 1000, "k".to_string())));
    assert_eq!(parse_specification("0/0_k"), Some((0, 0, "k".to_string())));
    assert_eq!(
        parse_specification("4294967295/4294967_k"),
        Some((u32::MAX, 4_294_967_000, "k".to_string()))
    );
    // The capacity does not fit in 32 bits.
    assert_eq!(parse_specification("4294967296/1_k"), None);
    // The seconds fit, the milliseconds do not.
    assert_eq!(parse_specification("1/4294968_k"), None);
    assert_eq!(parse_specification("1/4294967295_k"), None);
    assert_eq!(parse_specification("1/4294967296_k"), None);
}

#[test]
fn specification_rest() {
    // The rest is everything behind the first underscore.
    assert_eq!(parse_specification("1/2_3/4_5"), Some((1, 2000, "3/4_5".to_string())));
    assert_eq!(parse_specification("1/2__"), Some((1, 2000, "_".to_string())));
    assert_eq!(parse_specification("1/2_ a b "), Some((1, 2000, " a b ".to_string())));
    assert_eq!(parse_specification("1/2_\u{e9}t\u{e9}\u{1f600}"), Some((1, 2000, "\u{e9}t\u{e9}\u{1f600}".to_string())));
    assert_eq!(parse_specification("1/2_a\rb"), Some((1, 2000, "a\rb".to_string())));
    // It is not empty and holds no line feed.
    assert_eq!(parse_specification("1/2_"), None);
    assert_eq!(parse_specification("1/2_a\nb"), None);
    assert_eq!(parse_specification("1/2_\n"), None);
}

#[test]
fn specification_shape() {
    for key in [
        "", "/", "_", "1", "1/", "1/2", "/2_k", "1/_k", "1_2/k", "_1/2_k", " 1/2_k", "1 /2_k",
        "1/ 2_k", "1/2 _k", "+1/2_k", "1/+2_k", "-1/2_k", "1//2_k", "1/2/3_k", "a/2_k", "1/b_k",
        "1.0/2_k", "0x1/2_k", "\u{661}/2_k", "1/\u{662}_k", "1\u{660}/2_k", "\u{ff11}/2_k",
        "k1/2_k",
    ] {
        assert_eq!(parse_specification(key), None, "{:?}", key);
    }
}

#[test]
fn request_is_one_word_and_a_key() {
    assert_eq!(key_of(b"incr zzz\r\n"), Some("zzz".to_string()));
    assert_eq!(key_of(b"incr zzz\n"), Some("zzz".to_string()));
    assert_eq!(key_of(b"incr zzz"), Some("zzz".to_string()));
    assert_eq!(key_of(b"  \t incr zzz \r\n\r\n"), Some("zzz".to_string()));
    assert_eq!(key_of(b"incr 1/2_toto\r\n"), Some("1/2_toto".to_string()));
    // The key is all that follows the first space.
    assert_eq!(key_of(b"incr   zzz"), Some("  zzz".to_string()));
    assert_eq!(key_of(b"incr a b c\r\n"), Some("a b c".to_string()));
    assert_eq!(key_of(b"incr \tzzz"), Some("\tzzz".to_string()));
    assert_eq!(key_of(b"incr  1/2_k"), Some(" 1/2_k".to_string()));
    assert_eq!(key_of("incr cl\u{e9}\u{3000}".as_bytes()), Some("cl\u{e9}".to_string()));
    assert_eq!(
        key_of("\u{a0}incr \u{2003}\u{1f600}\u{85}".as_bytes()),
        Some("\u{2003}\u{1f600}".to_string())
    );
}

#[test]
fn request_refused() {
    for input in [
        &b""[..], b"\r\n", b" ", b"incr", b"incr\r\n", b"incr ", b" incr \r\n", b"incr\tzzz",
        b"incr\nzzz", b"get zzz", b"INCR zzz", b"Incr zzz", b"incrr zzz", b"inc zzz", b"i ncr zzz",
        b"decr zzz\r\n", b"zzz incr", b"incr\0 zzz",
        // Nothing but the word stands before the first space.
        b"incr\t zzz", b"incr\t x", b"incr\r zzz", b"incr\n zzz", b"incr\x0b zzz",
        "incr\u{a0} zzz".as_bytes(), "incr\u{3000} zzz".as_bytes(),
    ] {
        assert_eq!(key_of(input), None, "{:?}", input);
    }
}

#[test]
fn request_is_utf8() {
    // A lone continuation byte, a truncated sequence, an overlong form, a surrogate.
    assert_eq!(key_of(b"incr \x80"), None);
    assert_eq!(key_of(b"incr \xe2\x82"), None);
    assert_eq!(key_of(b"incr \xc0\xaf"), None);
    assert_eq!(key_of(b"incr \xed\xa0\x80"), None);
    assert_eq!(key_of(b"\xffincr zzz"), None);
    assert_eq!(key_of(b"incr \xe2\x82\xac"), Some("\u{20ac}".to_string()));
    assert_eq!(key_of(b"incr \xf0\x9f\x98\x80x"), Some("\u{1f600}x".to_string()));
}

#[test]
fn white_space_is_unicode_white_space() {
    // A character at the end of the key is dropped exactly when it is white
    // space: every character of the first plane, and a sample of the others.
    let low = '\0'..='\u{ffff}';
    let high = ('\u{10000}'..=char::MAX).step_by(97);
    for c in low.chain(high) {
        let request = format!("incr k{}", c);
        let kept = format!("k{}", c);
        let expected = if c.is_whitespace() { "k" } else { kept.as_str() };
        match read_input(request.as_bytes()) {
            Ok(Command::Incr(key)) => assert_eq!(key, expected, "{:?}", c),
            Err(()) => panic!("refused with {:?}", c),
        }
    }
}

#[test]
fn request_agrees_with_trim_and_split() {
    for input in [
        "incr zzz\r\n",
        " \u{2028}incr \u{c}a b\u{1680} ",
        "incr \u{feff}x",
        "incr \u{200b}x\u{200b}",
        "\tincr  two  spaces\n",
        "incr\u{b} a b",
        "INCR a",
        "incr",
    ] {
        let expected = match input.trim().split_once(' ') {
            Some(("incr", key)) => Some(key.to_string()),
            _ => None,
        };
        assert_eq!(key_of(input.as_bytes()), expected, "{:?}", input);
    }
}

#[test]
fn read_outcomes() {
    let mut rl = Ratelimit::new(1, 1000).unwrap();
    let mut xrl = RatelimitCollection::new();
    // The read failed, or the peer closed.
    assert_eq!(serve(None, 5, &mut rl, &mut xrl), Action::Close);
    assert_eq!(serve(Some(b""), 5, &mut rl, &mut xrl), Action::Close);
    // A request that is not understood is answered, and changes nothing.
    assert_eq!(serve(Some(b"\r\n"), 5, &mut rl, &mut xrl), Action::Respond(Reply::Error));
    assert_eq!(serve(Some(b"get k\r\n"), 5, &mut rl, &mut xrl), Action::Respond(Reply::Error));
    assert_eq!(serve(Some(b"incr \xff\r\n"), 5, &mut rl, &mut xrl), Action::Respond(Reply::Error));
    assert_eq!(rl.len(), 0);
    // A rule that is none is an error, and makes no limiter.
    assert_eq!(serve(Some(b"incr 0/1_k\r\n"), 5, &mut rl, &mut xrl), Action::Respond(Reply::Error));
    assert_eq!(serve(Some(b"incr 1/0_k\r\n"), 5, &mut rl, &mut xrl), Action::Respond(Reply::Error));
    assert_eq!(serve(Some(b"incr 1/4147201_k\r\n"), 5, &mut rl, &mut xrl), Action::Respond(Reply::Error));
    assert_eq!(serve(Some(b"incr 1/4147200_k\r\n"), 5, &mut rl, &mut xrl), Action::Respond(Reply::Admitted));
    assert_eq!(rl.len(), 0);
    // Without a rule the default limiter counts the whole key.
    assert_eq!(serve(Some(b"incr k\r\n"), 5, &mut rl, &mut xrl), Action::Respond(Reply::Admitted));
    assert_eq!(serve(Some(b"incr k\r\n"), 1004, &mut rl, &mut xrl), Action::Respond(Reply::Denied));
    assert_eq!(serve(Some(b"incr k\r\n"), 1005, &mut rl, &mut xrl), Action::Respond(Reply::Admitted));
    assert_eq!(serve(Some(b"incr 1/4294968_k\r\n"), 1005, &mut rl, &mut xrl), Action::Respond(Reply::Admitted));
    assert_eq!(serve(Some(b"incr 1/4294968_k\r\n"), 1005, &mut rl, &mut xrl), Action::Respond(Reply::Denied));
    assert_eq!(rl.len(), 2);
}

#[test]
fn incr_selects_the_limiter() {
    match handle_incr("k".to_string()) {
        Plan::Default(key) => assert_eq!(key, "k"),
        other => panic!("{:?}", other),
    }
    match handle_incr("1/1_k".to_string()) {
        Plan::Rule(hits, duration, key) => assert_eq!((hits, duration, key.as_str()), (1, 1000, "k")),
        other => panic!("{:?}", other),
    }
    match handle_incr("0/5_k".to_string()) {
        Plan::Rule(hits, duration, key) => assert_eq!((hits, duration, key.as_str()), (0, 5000, "k")),
        other => panic!("{:?}", other),
    }
    match handle_incr(" 1/1_k".to_string()) {
        Plan::Default(key) => assert_eq!(key, " 1/1_k"),
        other => panic!("{:?}", other),
    }

    let mut rl = Ratelimit::new(2, 1000).unwrap();
    let mut xrl = RatelimitCollection::new();
    let admitted = Action::Respond(Reply::Admitted);
    let denied = Action::Respond(Reply::Denied);
    assert_eq!(serve(Some(b"incr k"), 1, &mut rl, &mut xrl), admitted);
    assert_eq!(serve(Some(b"incr 1/1_k"), 1, &mut rl, &mut xrl), admitted);
    assert_eq!(serve(Some(b"incr 1/1_k"), 1, &mut rl, &mut xrl), denied);
    assert_eq!(serve(Some(b"incr k"), 1, &mut rl, &mut xrl), admitted);
    assert_eq!(serve(Some(b"incr k"), 1, &mut rl, &mut xrl), denied);
    assert_eq!(serve(Some(b"incr 1/1_k"), 1001, &mut rl, &mut xrl), admitted);
    assert_eq!(serve(Some(b"incr 0/5_k"), 1, &mut rl, &mut xrl), Action::Respond(Reply::Error));
    // Two spaces: the key begins with a space, and carries no rule.
    assert_eq!(serve(Some(b"incr  1/1_k"), 1, &mut rl, &mut xrl), admitted);
    // A tab behind the word: no request, and no hit.
    assert_eq!(serve(Some(b"incr\t x"), 1, &mut rl, &mut xrl), Action::Respond(Reply::Error));
    assert_eq!(rl.len(), 2);
    assert_eq!(xrl.get_instance(1, 1000).unwrap().len(), 1);
}

#[test]
fn connection_states() {
    let reply = Action::Respond(Reply::Denied);
    assert_eq!(next_state(&reply, true), State::Reading);
    assert_eq!(next_state(&reply, false), State::Closed);
    assert_eq!(next_state(&Action::Respond(Reply::Error), true), State::Reading);
    assert_eq!(next_state(&Action::Close, true), State::Closed);
    assert_eq!(next_state(&Action::Close, false), State::Closed);
}

#[test]
fn plan_names_the_structure() {
    assert!(matches!(handle_one(None), Plan::Close));
    assert!(matches!(handle_one(Some(b"")), Plan::Close));
    assert!(matches!(handle_one(Some(b"\r\n")), Plan::Respond(Reply::Error)));
    assert!(matches!(handle_one(Some(b"get k\r\n")), Plan::Respond(Reply::Error)));
    assert!(matches!(handle_one(Some(b"incr \xff")), Plan::Respond(Reply::Error)));
    match handle_one(Some(b"incr zzz\r\n")) {
        Plan::Default(key) => assert_eq!(key, "zzz"),
        other => panic!("{:?}", other),
    }
    match handle_one(Some(b"incr 1/4294968_k\r\n")) {
        Plan::Default(key) => assert_eq!(key, "1/4294968_k"),
        other => panic!("{:?}", other),
    }
    match handle_one(Some(b"incr 80/200_bar\r\n")) {
        Plan::Rule(hits, duration, key) => assert_eq!((hits, duration, key.as_str()), (80, 200_000, "bar")),
        other => panic!("{:?}", other),
    }
    // Whether the pair makes a rule is for the collection to say.
    match handle_one(Some(b"incr 0/1_k")) {
        Plan::Rule(hits, duration, key) => assert_eq!((hits, duration, key.as_str()), (0, 1_000, "k")),
        other => panic!("{:?}", other),
    }
}

#[test]
fn one_step_per_structure() {
    let mut rl = Ratelimit::new(1, 1000).unwrap();
    assert_eq!(serve_default("k", 5, &mut rl), Reply::Admitted);
    assert_eq!(serve_default("k", 1004, &mut rl), Reply::Denied);
    assert_eq!(serve_default("k", 1005, &mut rl), Reply::Admitted);
    assert_eq!(rl.len(), 1);

    let mut xrl = RatelimitCollection::new();
    assert_eq!(serve_rule(1, 1000, "k", 5, &mut xrl), Reply::Admitted);
    assert_eq!(serve_rule(1, 1000, "k", 6, &mut xrl), Reply::Denied);
    assert_eq!(serve_rule(2, 1000, "k", 6, &mut xrl), Reply::Admitted);
    assert_eq!(serve_rule(0, 1000, "k", 6, &mut xrl), Reply::Error);
    assert_eq!(serve_rule(1, 0, "k", 6, &mut xrl), Reply::Error);
    assert_eq!(serve_rule(1, u32::MAX, "k", 6, &mut xrl), Reply::Error);
    assert_eq!(xrl.cleanup(u64::MAX), 2);
}
