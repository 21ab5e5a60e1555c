use resonantdust_client::endpoint::{gate_url, http_base};
use resonantdust_client::gate::GateConnection;
use resonantdust_client::text::{
    chars_of, comes_before, find_text, is_at, join3, parse_u64, push_decimal, read_leading,
    replace_all, same_chars, spells, split_text, to_text, trim_end, trim_spaces, with_number,
};
use resonantdust_client::wire::{ClientCall, ClientMsg};

fn v(s: &str) -> Vec<char> {
    chars_of(s)
}

#[test]
fn numbers_round_trip_through_text() {
    for n in [0u64, 7, 10, 65520, u64::MAX] {
        let mut s = String::new();
        push_decimal(&mut s, n);
        assert_eq!(s, n.to_string());
        assert_eq!(parse_u64(&v(&s)), Some(n));
    }
    assert_eq!(parse_u64(&v("")), None);
    assert_eq!(parse_u64(&v("18446744073709551616")), None);
    assert_eq!(parse_u64(&v("12x")), None);
    assert_eq!(parse_u64(&v("+12")), Some(12));
    assert_eq!(read_leading(&v("ab12c"), 2), 12);
    assert_eq!(with_number("macro_zone = ", 12), "macro_zone = 12");
}

#[test]
fn texts_are_searched_cut_and_replaced() {
    assert_eq!(find_text(&v("aXbX"), &v("X")), Some(1));
    assert_eq!(find_text(&v("ab"), &v("X")), None);
    assert!(is_at(&v("root.x"), &v("root."), 0) && !is_at(&v("roo"), &v("root."), 0));
    let parts: Vec<String> = split_text("slot.1.0", '.').iter().map(to_text).collect();
    assert_eq!(parts, vec!["slot", "1", "0"]);
    assert_eq!(split_text("", ',').len(), 1);
    assert_eq!(to_text(&replace_all(&v("a--b--"), &v("--"), &v("+"))), "a+b+");
    assert_eq!(trim_end(&v("x/ws/ws"), &v("/ws")), 1);
    assert_eq!(join3("a", "b", "c"), "abc");
    assert!(same_chars(&v("ab"), &v("ab")) && spells(&v("ab"), "ab") && !spells(&v("ab"), "ac"));
    assert!(comes_before(&v("ab"), &v("b")) && comes_before(&v("a"), &v("ab")));
    assert!(!comes_before(&v("ab"), &v("ab")));
}

#[test]
fn the_server_is_the_one_given_or_the_one_of_the_environment() {
    let default = || "ws://here:1/ws".to_string();
    let url = |given: Option<&str>, env: Option<&str>| {
        gate_url(given.map(|s| s.to_string()), env.map(|s| s.to_string()), default())
    };
    assert_eq!(url(Some("ws://x/ws"), Some("dev")), "ws://x/ws");
    assert_eq!(url(None, Some("dev")), "ws://gate:8473/ws");
    assert_eq!(url(None, Some("test")), "ws://gate-test:8475/ws");
    assert_eq!(url(None, Some("other")), default());
    assert_eq!(url(None, None), default());
}

#[test]
fn the_base_is_the_address_without_the_socket() {
    assert_eq!(http_base("ws://gate:8473/ws"), "http://gate:8473");
    assert_eq!(http_base("http://gate"), "http://gate");
    assert_eq!(http_base("wss://gate/ws"), "https://gate");
    assert_eq!(http_base("ws://gate/ws/ws"), "http://gate");
}

#[test]
fn ids_of_subscriptions_and_calls_count_apart() {
    let mut conn = GateConnection::new(());
    let (s1, m1) = conn.subscribe("regions", None);
    let (s2, m2) = conn.subscribe("zones", Some("macro_zone = 16382".to_string()));
    let (c1, m3) = conn.call("ping", serde_json::Value::Null);
    assert_eq!((s1, s2, c1), (1, 2, 1), "sids and cids count up independently");
    assert!(matches!(m1, ClientMsg::Sub { sid: 1, ref table, filter: None } if table == "regions"));
    assert!(matches!(m2, ClientMsg::Sub { sid: 2, filter: Some(ref f), .. } if f == "macro_zone = 16382"));
    assert!(matches!(m3, ClientMsg::Call { cid: 1, call: ClientCall::Raw { ref reducer, .. } } if reducer == "ping"));
    assert!(matches!(conn.unsubscribe(2), ClientMsg::Unsub { sid: 2 }));
}

#[test]
fn white_space_goes_from_both_ends() {
    let trimmed = |s: &str| to_text(&trim_spaces(&v(s)));
    assert_eq!(trimmed("  a b\t\n"), "a b");
    assert_eq!(trimmed(" \u{3000} "), "");
    assert_eq!(trimmed(""), "");
    assert_eq!(trimmed("abc"), "abc");
    for n in 0..=0x10_FFFFu32 {
        if let Some(c) = char::from_u32(n) {
            let chars = vec![c, 'a', c, 'b', c];
            let all: String = chars.iter().collect();
            let left: String = trim_spaces(&chars).into_iter().collect();
            assert_eq!(left, all.trim(), "around {n:#x}");
        }
    }
}
