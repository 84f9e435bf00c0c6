use mod_bridge::lookup::{
    entry_marker, pick_bound_so, slot_not_found_message, kind_label, list_traits, list_slot_entries, SlotEntry, find_method_named, find_slot_for_write, find_slot_named, name_matches, parse_index, parse_keywords, pick_so,
    pick_so_loose, PropKind, SoLookupError,
};
use mod_bridge::ops::{plan_storage_put, so_data_path, so_prop_path};
use mod_bridge::paths::{no_object_at, write_target, DisplayMiss, WriteOp, parse_target, plan_display_path, split_last_prop, split_nonempty_exec, DisplayStart, PropSplit, Target};
use mod_bridge::request::{plan_request, primitive_value, Command, JsonKind, Request, SlotSource};

fn req(op: &str) -> Request<u8> {
    Request {
        op: op.to_string(),
        path: None,
        method: None,
        value: None,
        args: None,
        keywords: None,
        name: None,
        key: None,
        base64: None,
        max_depth: None,
        limit: None,
        prop: None,
    }
}

#[test]
fn plan_defaults() {
    match plan_request(req("list_display")) {
        Ok(Command::ListDisplay { max_depth, limit }) => assert_eq!((max_depth, limit), (3, 120)),
        _ => panic!(),
    }
    match plan_request(req("list_props")) {
        Ok(Command::ListProps { path, limit }) => assert_eq!((path.as_str(), limit), ("root", 80)),
        _ => panic!(),
    }
    match plan_request(req("find")) {
        Ok(Command::Find { keywords, max_depth, limit }) => {
            assert_eq!(keywords, "money,tip,score,coin,gold,hp,day,rank,allmoney");
            assert_eq!((max_depth, limit), (5, 60));
        }
        _ => panic!(),
    }
    let mut b = req("bind_so");
    b.name = Some("g".to_string());
    match plan_request(b) {
        Ok(Command::BindSo { path, name }) => {
            assert_eq!(path, "root/thanksTanks.sharedOb");
            assert_eq!(name, "g");
        }
        _ => panic!(),
    }
    match plan_request(req("list_slots")) {
        Ok(Command::ListSlots { path, limit }) => assert_eq!((path.as_str(), limit), ("root", 200)),
        _ => panic!(),
    }
    let mut c = req("call");
    c.method = Some("play".to_string());
    match plan_request(c) {
        Ok(Command::Call { path, method, args }) => {
            assert_eq!(path, "root");
            assert_eq!(method, "play");
            assert!(args.is_empty());
        }
        _ => panic!(),
    }
    assert!(matches!(plan_request(req("ping")), Ok(Command::Ping)));
    assert!(matches!(plan_request(req("list_so")), Ok(Command::ListSo)));
}

#[test]
fn plan_takes_given_fields() {
    let mut r = req("set");
    r.path = Some("root.x".to_string());
    r.value = Some(9);
    match plan_request(r) {
        Ok(Command::SetValue { path, value }) => {
            assert_eq!(path, "root.x");
            assert_eq!(value, Some(9));
        }
        _ => panic!(),
    }
    let mut r = req("list_display");
    r.max_depth = Some(1);
    r.limit = Some(7);
    match plan_request(r) {
        Ok(Command::ListDisplay { max_depth, limit }) => assert_eq!((max_depth, limit), (1, 7)),
        _ => panic!(),
    }
}

fn refusal(r: Result<Command<u8>, String>) -> String {
    match r {
        Err(m) => m,
        Ok(_) => panic!("expected a refusal"),
    }
}

#[test]
fn plan_refuses_missing_fields() {
    assert_eq!(refusal(plan_request(req("get"))), "path required");
    assert_eq!(refusal(plan_request(req("set"))), "path required");
    assert_eq!(refusal(plan_request(req("call"))), "method required");
    assert_eq!(refusal(plan_request(req("get_so"))), "name required");
    assert_eq!(refusal(plan_request(req("set_so_prop"))), "name and prop required");
    assert_eq!(refusal(plan_request(req("storage_get"))), "key required");
    assert_eq!(refusal(plan_request(req("storage_put"))), "key required");
    assert_eq!(refusal(plan_request(req("bind_so"))), "name = SharedObject key required");
    assert_eq!(
        refusal(plan_request(req("set_ref"))),
        "set_ref needs path (target) and name (source object path)"
    );
    assert_eq!(
        refusal(plan_request(req("set_slot"))),
        "set_slot needs path (object) and prop (field name)"
    );
    let mut p = req("storage_put");
    p.key = Some("k".to_string());
    p.base64 = Some("ab*d".to_string());
    assert_eq!(refusal(plan_request(p)), "base64: bad base64 char: *");
}

#[test]
fn plan_shared_object_and_storage_paths() {
    let mut g = req("get_so");
    g.name = Some("localhost/game".to_string());
    match plan_request(g) {
        Ok(Command::GetSo { path, limit }) => assert_eq!((path.as_str(), limit), ("so:localhost/game", 80)),
        _ => panic!(),
    }
    let mut s = req("set_so_prop");
    s.name = Some("g".to_string());
    s.prop = Some("money".to_string());
    s.value = Some(5);
    match plan_request(s) {
        Ok(Command::SetSoProp { path, value }) => assert_eq!((path.as_str(), value), ("so:g|money", Some(5))),
        _ => panic!(),
    }
    let mut p = req("storage_put");
    p.key = Some("k".to_string());
    p.base64 = Some("TW Fu".to_string());
    match plan_request(p) {
        Ok(Command::StoragePut { key, bytes }) => assert_eq!((key.as_str(), bytes), ("k", b"Man".to_vec())),
        _ => panic!(),
    }
}

#[test]
fn plan_set_slot_source() {
    let slot = |name: Option<&str>, value: Option<u8>| {
        let mut r = req("set_slot");
        r.path = Some("root/t".to_string());
        r.prop = Some("level".to_string());
        r.name = name.map(|n| n.to_string());
        r.value = value;
        match plan_request(r) {
            Ok(Command::SetSlot { path, prop, source }) => {
                assert_eq!((path.as_str(), prop.as_str()), ("root/t", "level"));
                source
            }
            _ => panic!(),
        }
    };
    assert!(matches!(slot(Some("root/a"), Some(3)), SlotSource::Ref(n) if n == "root/a"));
    assert!(matches!(slot(Some(""), Some(3)), SlotSource::Value(3)));
    assert!(matches!(slot(None, Some(4)), SlotSource::Value(4)));
    assert!(matches!(slot(None, None), SlotSource::Missing));
    assert!(matches!(slot(Some(""), None), SlotSource::Missing));
}

#[test]
fn plan_unknown_op() {
    assert_eq!(refusal(plan_request(req("explode"))), "unknown op: explode");
    assert_eq!(refusal(plan_request(req("nope"))), "unknown op: nope");
}

#[test]
fn argument_kinds() {
    let refused = "object/array values not supported \u{2014} use primitives";
    assert_eq!(primitive_value(JsonKind::Array), Err(refused.to_string()));
    assert_eq!(primitive_value(JsonKind::Object), Err(refused.to_string()));
    for k in [JsonKind::Null, JsonKind::Bool, JsonKind::Number, JsonKind::Text] {
        assert_eq!(primitive_value(k), Ok(()));
    }
}

#[test]
fn slot_source_required() {
    assert_eq!(
        SlotSource::<u8>::Missing.require(),
        Err("set_slot needs value or name=$ref source path".to_string())
    );
    assert_eq!(SlotSource::<u8>::Value(1).require(), Ok(()));
    assert_eq!(SlotSource::<u8>::Ref("root/a".to_string()).require(), Ok(()));
}

#[test]
fn refusal_texts() {
    assert_eq!(
        SoLookupError::NameEmpty.message("\"\"", "[]"),
        "SharedObject name empty"
    );
    assert_eq!(
        SoLookupError::NotLoaded.message("\"g\"", "[\"a\"]"),
        "SharedObject not loaded: \"g\" (have: [\"a\"])"
    );
    let ks = keys(&["a/game_1", "b"]);
    assert_eq!(pick_bound_so(&ks, "game", "\"game\"", "[..]"), Ok(0));
    assert_eq!(pick_bound_so(&ks, "zzz", "\"zzz\"", "[\"a/game_1\", \"b\"]"),
        Err("SO not found: \"zzz\" have [\"a/game_1\", \"b\"]".to_string()));
    assert_eq!(
        slot_not_found_message("\"lvl\"", "Game", "[\"level=Slot#3\"]"),
        "slot \"lvl\" not found on Game (near=[\"level=Slot#3\"])"
    );
    assert_eq!(entry_marker(SlotEntry::Getter), Some("[getter]".to_string()));
    assert_eq!(entry_marker(SlotEntry::Method), Some("[method]".to_string()));
    assert_eq!(entry_marker(SlotEntry::Value(2)), None);
    assert_eq!(no_object_at("root/menu"), "no AVM2 object at display path 'root/menu'");
    assert_eq!(DisplayMiss::NoRoot.message(), "no root clip");
    assert_eq!(DisplayMiss::RootNotContainer.message(), "root is not a container");
    assert_eq!(DisplayMiss::NoChildUnderRoot("menu".to_string()).message(), "no child 'menu' under root");
    assert_eq!(DisplayMiss::NotContainer("tip".to_string()).message(), "'tip' is not a container");
    assert_eq!(
        DisplayMiss::NoChild { part: "b".to_string(), parent: "menu".to_string() }.message(),
        "no child 'b' under menu"
    );
}

#[test]
fn write_targets() {
    assert_eq!(
        write_target("", WriteOp::SetProp),
        Err("set requires a property path (e.g. root.x or so:name|allmoney)".to_string())
    );
    assert_eq!(
        write_target("", WriteOp::BindSo),
        Err("bind_so path needs a property (e.g. root/thanksTanks.sharedOb)".to_string())
    );
    assert_eq!(write_target("", WriteOp::SetRef), Err("target path needs a property".to_string()));
    assert_eq!(write_target("..", WriteOp::SetProp), Err("property required".to_string()));
    assert_eq!(
        write_target("thanksTanks.sharedOb", WriteOp::BindSo),
        Ok(("thanksTanks".to_string(), "sharedOb".to_string()))
    );
}

#[test]
fn target_paths() {
    match parse_target("  so:localhost//games/Game.swf|data.coins ").unwrap() {
        Target::SharedObject { name, props } => {
            assert_eq!(name, "localhost//games/Game.swf");
            assert_eq!(props, "data.coins");
        }
        _ => panic!(),
    }
    match parse_target("so: papasfreezeria_1 ").unwrap() {
        Target::SharedObject { name, props } => {
            assert_eq!(name, "papasfreezeria_1");
            assert_eq!(props, "");
        }
        _ => panic!(),
    }
    match parse_target("root/thanksTanks.level.x").unwrap() {
        Target::Display { base, props } => {
            assert_eq!(base, "root/thanksTanks");
            assert_eq!(props, "level.x");
        }
        _ => panic!(),
    }
    match parse_target("stage").unwrap() {
        Target::Display { base, props } => {
            assert_eq!(base, "stage");
            assert_eq!(props, "");
        }
        _ => panic!(),
    }
    assert_eq!(parse_target("   ").err(), Some("path required".to_string()));
}

#[test]
fn display_paths() {
    let p = plan_display_path("root//thanksTanks/gun/").unwrap();
    assert!(matches!(p.start, DisplayStart::Root));
    assert_eq!(p.steps, vec!["thanksTanks".to_string(), "gun".to_string()]);
    let p = plan_display_path("stage").unwrap();
    assert!(matches!(p.start, DisplayStart::Stage));
    assert!(p.steps.is_empty());
    let p = plan_display_path("menu/play").unwrap();
    match p.start {
        DisplayStart::RootChild(n) => assert_eq!(n, "menu"),
        _ => panic!(),
    }
    assert_eq!(p.steps, vec!["play".to_string()]);
    assert_eq!(plan_display_path("//").err(), Some("empty display path".to_string()));
}

#[test]
fn display_paths_with_the_same_segments_plan_alike() {
    let a = plan_display_path("//menu///play/").unwrap();
    let b = plan_display_path("menu/play").unwrap();
    assert!(matches!((&a.start, &b.start), (DisplayStart::RootChild(x), DisplayStart::RootChild(y)) if x == y));
    assert_eq!(a.steps, b.steps);
    let r = plan_display_path("root/menu/play").unwrap();
    assert!(matches!(r.start, DisplayStart::Root));
    assert_eq!(r.steps, vec!["menu".to_string(), "play".to_string()]);
    assert_eq!(split_nonempty_exec("root/menu/play", '/'), vec!["root", "menu", "play"]);
}

#[test]
fn split_pieces() {
    assert_eq!(split_nonempty_exec("a..b.", '.'), vec!["a".to_string(), "b".to_string()]);
    assert!(split_nonempty_exec("", '/').is_empty());
}

#[test]
fn last_prop_split() {
    assert!(matches!(split_last_prop(""), PropSplit::NoPath));
    assert!(matches!(split_last_prop(".."), PropSplit::NoProperty));
    match split_last_prop("thanksTanks..sharedOb") {
        PropSplit::Split { parent, last } => {
            assert_eq!(parent, "thanksTanks");
            assert_eq!(last, "sharedOb");
        }
        _ => panic!(),
    }
    match split_last_prop("a.b.c") {
        PropSplit::Split { parent, last } => {
            assert_eq!(parent, "a.b");
            assert_eq!(last, "c");
        }
        _ => panic!(),
    }
    match split_last_prop("x") {
        PropSplit::Split { parent, last } => {
            assert_eq!(parent, "");
            assert_eq!(last, "x");
        }
        _ => panic!(),
    }
}

fn keys(v: &[&str]) -> Vec<String> {
    v.iter().map(|s| s.to_string()).collect()
}

#[test]
fn pick_shared_object() {
    let ks = keys(&["localhost/chat", "localhost//a/chat", "other/game", "game"]);
    assert_eq!(pick_so(&ks, " game "), Ok(3));
    assert_eq!(pick_so(&ks, "chat"), Ok(1));
    assert_eq!(pick_so(&ks, ""), Err(SoLookupError::NameEmpty));
    assert_eq!(pick_so(&ks, "nothing"), Err(SoLookupError::NotLoaded));
    let tie = keys(&["x/ab", "y/ab"]);
    assert_eq!(pick_so(&tie, "ab"), Ok(1));
}

#[test]
fn pick_shared_object_counts_bytes() {
    // "abcx" has four bytes, "\u{e9}\u{e9}x" five (three characters).
    let ks = keys(&["abcx", "\u{e9}\u{e9}x"]);
    assert_eq!(pick_so(&ks, "x"), Ok(1));
    let rev = keys(&["\u{e9}\u{e9}x", "abcx"]);
    assert_eq!(pick_so(&rev, "x"), Ok(0));
}

#[test]
fn pick_shared_object_loosely() {
    let ks = keys(&["a/game_1/x", "b/game_1", "game_1"]);
    assert_eq!(pick_so_loose(&ks, "game_1"), Some(2));
    assert_eq!(pick_so_loose(&ks, "game"), Some(0));
    assert_eq!(pick_so_loose(&ks, "zzz"), None);
}

#[test]
fn keywords_and_matching() {
    let kws = parse_keywords(" Money, ,TIP,,score ");
    assert_eq!(kws, keys(&["money", "tip", "score"]));
    assert!(parse_keywords("").is_empty());
    assert!(name_matches("AllMoney", &kws));
    assert!(name_matches("tipJar", &kws));
    assert!(!name_matches("level", &kws));
}

fn traits() -> Vec<(String, PropKind)> {
    vec![
        ("level".to_string(), PropKind::Virtual(Some(1), None)),
        ("level".to_string(), PropKind::Slot(4)),
        ("levelMax".to_string(), PropKind::ConstSlot(5)),
        ("play".to_string(), PropKind::Method(9)),
        ("lev".to_string(), PropKind::Method(2)),
    ]
}

#[test]
fn trait_lookups() {
    let t = traits();
    assert_eq!(find_slot_named(&t, "level"), Some(4));
    assert_eq!(find_slot_named(&t, "levelMax"), Some(5));
    assert_eq!(find_slot_named(&t, "play"), None);
    assert_eq!(find_method_named(&t, "play"), Some(9));
    assert_eq!(find_method_named(&t, "level"), None);
}

#[test]
fn slot_for_write_and_near_names() {
    let t = traits();
    assert_eq!(find_slot_for_write(&t, "level"), Ok(4));
    assert_eq!(
        find_slot_for_write(&t, "levelM"),
        Err(keys(&["level=Virtual", "level=Slot#4", "levelMax=Const#5", "lev=Method"]))
    );
    assert_eq!(find_slot_for_write(&t, "play"), Err(keys(&["play=Method"])));
    assert_eq!(find_slot_for_write(&t, "zzz"), Err(Vec::new()));
}

#[test]
fn array_indices() {
    assert_eq!(parse_index("3"), Some(3));
    assert_eq!(parse_index("+7"), Some(7));
    assert_eq!(parse_index("-1"), Some(usize::MAX));
    assert_eq!(parse_index("2147483647"), Some(2147483647));
    assert_eq!(parse_index("2147483648"), None);
    assert_eq!(parse_index("-2147483648"), Some((-2147483648i32) as usize));
    assert_eq!(parse_index("-"), None);
    assert_eq!(parse_index("1x"), None);
    assert_eq!(parse_index(""), None);
}

#[test]
fn shared_object_paths() {
    assert_eq!(so_data_path("game"), Ok("so:game".to_string()));
    assert_eq!(so_data_path(""), Err("name required".to_string()));
    assert_eq!(so_prop_path("game", "coins"), Ok("so:game|coins".to_string()));
    assert_eq!(so_prop_path("game", ""), Err("name and prop required".to_string()));
    match parse_target(&so_prop_path("a/b.c", "coins").unwrap()).unwrap() {
        Target::SharedObject { name, props } => {
            assert_eq!(name, "a/b.c");
            assert_eq!(props, "coins");
        }
        _ => panic!(),
    }
}

#[test]
fn storage_put_plans() {
    assert_eq!(plan_storage_put("k", "Zm9v"), Ok(b"foo".to_vec()));
    assert_eq!(plan_storage_put("", "Zm9v"), Err("key required".to_string()));
    assert_eq!(plan_storage_put("k", "Zm9"), Err("base64: base64 length".to_string()));
    assert_eq!(plan_storage_put("k", "Zm9!"), Err("base64: bad base64 char: !".to_string()));
}

#[test]
fn slot_listing_markers_and_limit() {
    let props = vec![
        ("money".to_string(), PropKind::Slot(3)),
        ("total".to_string(), PropKind::Virtual(Some(1), None)),
        ("setOnly".to_string(), PropKind::Virtual(None, Some(2))),
        ("play".to_string(), PropKind::Method(4)),
        ("total".to_string(), PropKind::ConstSlot(8)),
        ("money".to_string(), PropKind::Method(5)),
    ];
    assert_eq!(
        list_slot_entries(&props, 40),
        vec![
            ("money".to_string(), SlotEntry::Value(3)),
            ("total".to_string(), SlotEntry::Value(8)),
            ("play".to_string(), SlotEntry::Method),
        ]
    );
    assert_eq!(
        list_slot_entries(&props, 2),
        vec![("money".to_string(), SlotEntry::Value(3)), ("total".to_string(), SlotEntry::Getter)]
    );
    assert!(list_slot_entries(&props, 0).is_empty());
}

#[test]
fn list_traits_keeps_the_first_limit() {
    let t = vec![
        ("level".to_string(), "".to_string(), PropKind::Slot(3)),
        ("MAX".to_string(), "ns".to_string(), PropKind::ConstSlot(4)),
        ("play".to_string(), "".to_string(), PropKind::Method(7)),
        ("score".to_string(), "".to_string(), PropKind::Virtual(Some(1), None)),
    ];
    let two = list_traits(&t, 2);
    assert_eq!(two.len(), 2);
    assert_eq!(two[1], ("MAX".to_string(), "ns".to_string(), PropKind::ConstSlot(4)));
    assert_eq!(list_traits(&t, 200), t);
    assert!(list_traits(&t, 0).is_empty());
    let labels: Vec<String> = t.iter().map(|e| kind_label(e.2)).collect();
    assert_eq!(labels, vec!["Slot", "Const", "Method", "Virtual"]);
}
