use dekho::apicache::{
    fetched, file_name, is_fresh, key, mark, read, serve, serve_stale, settle, stored,
    ttl_secs, unpack,
};
use dekho::json;
use dekho::json::{Fields, Json, Number};

#[test]
fn keys_are_stable_and_argument_sensitive() {
    let a = key(&["search", "fight club"]);
    let b = key(&["search", "fight club"]);
    let c = key(&["search", "fight clubs"]);
    assert_eq!(a, b);
    assert_ne!(a, c);
    assert!(a.starts_with("search-"), "verb stays legible: {a}");
}

#[test]
fn keys_do_not_collide_on_joined_boundaries() {
    // "ab"+"c" and "a"+"bc" must differ — the separator is the point.
    assert_ne!(key(&["ab", "c"]), key(&["a", "bc"]));
}

#[test]
fn ttls_cover_the_networked_verbs_and_nothing_else() {
    assert!(ttl_secs("search").is_some());
    assert!(ttl_secs("trending").is_some());
    assert!(ttl_secs("discover").is_some());
    assert!(ttl_secs("title").is_some());
    assert!(ttl_secs("episodes").is_some());
    assert!(ttl_secs("videos").is_some());
    assert!(ttl_secs("person").is_some());
    // Local verbs must never be served from this cache.
    assert_eq!(ttl_secs("history"), None);
    assert_eq!(ttl_secs("prefetch"), None);
    assert_eq!(ttl_secs("genres"), None);
    assert_eq!(ttl_secs("languages"), None);
    assert_eq!(ttl_secs("cache"), None);
}

#[test]
fn title_answers_live_longer_than_searches() {
    assert!(ttl_secs("title").unwrap() > ttl_secs("search").unwrap());
}

#[test]
fn a_filmography_outlives_what_is_trending() {
    // A career moves in months; trending moves in hours.
    assert!(ttl_secs("person").unwrap() > ttl_secs("trending").unwrap());
    assert!(ttl_secs("person").unwrap() >= ttl_secs("title").unwrap());
}

#[test]
fn freshness_is_a_simple_ttl_comparison() {
    assert!(is_fresh(0, 900));
    assert!(is_fresh(900, 900));
    assert!(!is_fresh(901, 900));
}

fn numbers(v: &[u64]) -> Json {
    json::array(v.iter().map(|n| json::unsigned(*n)).collect())
}

#[test]
fn marking_adds_fields_without_touching_the_rest() {
    let mut v = Fields::new();
    v.put("items", numbers(&[1, 2, 3]));
    let m = mark(v.finish(), 42, false);
    assert_eq!(m.get("items"), Some(&numbers(&[1, 2, 3])));
    assert_eq!(m.get("cached"), Some(&Json::Bool(true)));
    assert_eq!(m.get("age_secs"), Some(&json::unsigned(42)));
    assert!(m.get("stale").is_none(), "fresh-from-cache is not stale");
}

#[test]
fn a_stale_serve_says_so() {
    let mut v = Fields::new();
    v.put("items", numbers(&[]));
    let m = mark(v.finish(), 90_000, true);
    assert_eq!(m.get("stale"), Some(&Json::Bool(true)));
}

#[test]
fn a_fresh_entry_answers_without_the_network() {
    let raw = "{\"saved\": 1000, \"value\": {\"name\": \"Bryan Cranston\"}}";
    let hit = read(raw, 1000).expect("a hit");
    assert!(is_fresh(hit.age_secs, ttl_secs("person").unwrap()));
    let served = mark(hit.value, hit.age_secs, false);
    assert_eq!(served.get("name"), Some(&json::string("Bryan Cranston")));
    assert_eq!(served.get("cached"), Some(&Json::Bool(true)));
}

#[test]
fn an_expired_entry_is_still_there_to_serve_when_the_network_fails() {
    // The stale path is exactly this: the entry is too old to answer
    // normally, and is served anyway rather than an error.
    let raw = "{\"saved\": 1000, \"value\": {\"items\": []}}";
    let hit = read(raw, 1000).expect("a hit");
    assert!(!is_fresh(hit.age_secs + 999_999, 60));
    assert_eq!(mark(hit.value, 999_999, true).get("stale"), Some(&Json::Bool(true)));
}

#[test]
fn write_and_read_round_trip_with_an_age() {
    let value = || {
        let mut item = Fields::new();
        item.put("id", json::unsigned(550));
        let mut value = Fields::new();
        value.put("items", json::array(vec![item.finish()]));
        value.finish()
    };
    let kept = stored(value(), 500);
    let hit = unpack(kept, 503).expect("a hit");
    assert_eq!(hit.value, value());
    assert!(hit.age_secs < 5, "just written");
    // The same, from the text of the file.
    let raw = "{\"saved\":500,\"value\":{\"items\":[{\"id\":550}]}}";
    let hit = read(raw, 503).expect("a hit");
    assert_eq!(hit.value, value());
    assert_eq!(hit.age_secs, 3);
    // A clock that went back makes nothing older.
    assert_eq!(read(raw, 1).expect("a hit").age_secs, 0);
}

#[test]
fn what_is_no_kept_answer_is_none() {
    assert!(read("", 1).is_none());
    assert!(read("not json", 1).is_none());
    assert!(read("{\"value\": 1}", 1).is_none());
    assert!(read("{\"saved\": \"soon\", \"value\": 1}", 1).is_none());
    assert!(read("{\"saved\": -3, \"value\": 1}", 1).is_none());
    assert!(read("{\"saved\": 3}", 1).is_none());
}

#[test]
fn every_shape_of_json_is_read() {
    let raw = "{\"saved\":1,\"value\":[null,true,-7,18446744073709551615,1.5,\"\\u00e9\",{}]}";
    let hit = read(raw, 1).expect("a hit");
    let wanted = json::array(vec![
        Json::Null,
        Json::Bool(true),
        Json::Number(Number::Negative(-7)),
        json::unsigned(u64::MAX),
        json::binary(1.5f64.to_bits()),
        json::string("\u{e9}"),
        Fields::new().finish(),
    ]);
    assert_eq!(hit.value, wanted);
}

#[test]
fn an_answer_is_served_only_while_it_is_fresh() {
    let hit = || read("{\"saved\":100,\"value\":{}}", 160);
    assert!(serve(Some(60), false, hit()).is_some());
    assert!(serve(Some(59), false, hit()).is_none(), "expired");
    assert!(serve(Some(60), true, hit()).is_none(), "a refresh skips the fresh read");
    assert!(serve(None, false, hit()).is_none(), "a live verb has no cache");
    let stale = serve_stale(Some(1), hit()).unwrap();
    assert_eq!(stale.get("stale"), Some(&Json::Bool(true)));
    assert_eq!(stale.get("age_secs"), Some(&json::unsigned(60)));
    assert!(serve_stale(None, hit()).is_none());
    assert!(serve_stale(Some(1), None).is_none());
}

#[test]
fn a_key_is_the_verb_and_a_hash() {
    // FNV-1a of "search\u{1f}x", in sixteen hex digits.
    let mut hash: u64 = 0xcbf2_9ce4_8422_2325;
    for b in "search\u{1f}x".bytes() {
        hash ^= u64::from(b);
        hash = hash.wrapping_mul(0x0000_0100_0000_01b3);
    }
    assert_eq!(key(&["search", "x"]), format!("search-{hash:016x}"));
    assert_eq!(key(&[]), "v-cbf29ce484222325");
    assert_eq!(file_name("search-1"), "search-1.json");
}

#[test]
fn a_fetched_answer_is_handed_on_and_kept_where_the_verb_is() {
    let answer = || {
        let mut v = Fields::new();
        v.put("items", numbers(&[1, 2]));
        v.put("name", json::string("Up"));
        v.put("none", Json::Null);
        v.finish()
    };
    let (given, kept) = fetched(ttl_secs("search"), answer(), 500);
    assert_eq!(given, answer());
    let hit = unpack(kept.expect("kept"), 560).expect("an answer");
    assert_eq!((hit.value, hit.age_secs), (answer(), 60));
    let (given, kept) = fetched(ttl_secs("history"), answer(), 500);
    assert_eq!(given, answer());
    assert!(kept.is_none(), "a verb that stays live is never written down");
}

#[test]
fn a_copy_of_an_answer_is_the_answer() {
    let mut inner = Fields::new();
    inner.put("deep", numbers(&[7]));
    inner.put("yes", Json::Bool(true));
    let mut v = Fields::new();
    v.put("inner", json::array(vec![inner.finish(), Json::Null, json::string("x")]));
    let v = v.finish();
    assert_eq!(v.clone(), v);
}

#[test]
fn a_failed_request_falls_back_on_what_was_kept() {
    let kept = || unpack(stored(numbers_named(&[4]), 100), 5_000_100);
    let ttl = ttl_secs("search");
    let (answer, write) = settle(ttl, Ok::<Json, &str>(numbers_named(&[9])), kept(), 700);
    assert_eq!(answer, Ok(numbers_named(&[9])), "what came is unmarked");
    assert_eq!(write, Some(stored(numbers_named(&[9]), 700)));
    let (answer, write) = settle(ttl, Err("offline"), kept(), 700);
    let answer = answer.expect("a stale answer");
    assert_eq!(answer.get("items"), Some(&numbers(&[4])));
    assert_eq!(answer.get("stale"), Some(&Json::Bool(true)));
    assert_eq!(answer.get("age_secs"), Some(&json::unsigned(5_000_000)));
    assert_eq!(write, None, "nothing new to write down");
    assert_eq!(settle(ttl, Err("offline"), None, 700), (Err("offline"), None));
    assert_eq!(settle(None, Err("offline"), kept(), 700), (Err("offline"), None));
}

fn numbers_named(v: &[u64]) -> Json {
    let mut f = Fields::new();
    f.put("items", numbers(v));
    f.finish()
}
