use weblib::routing_table::{more, one, par, ser, str_eq, RoutingTable};

const BOTTOM_FALLBACK: &i32 = &14;
const APP_API_V4_SIGNUP: &i32 = &15;
const APP_API_V4_SIGNIN: &i32 = &16;
const APP_API_V4_SIGNOUT: &i32 = &17;

#[test]
fn simple_case() {
    let mut rt = RoutingTable::new(BOTTOM_FALLBACK);
    rt.register(APP_API_V4_SIGNUP, &["api", "v4", "sign-up"]);
    rt.register(APP_API_V4_SIGNIN, &["api", "v4", "sign-in"]);
    rt.register(APP_API_V4_SIGNOUT, &["api", "v4", "sign-out"]);

    assert_eq!(rt.lookup(&[]).unwrap().val, BOTTOM_FALLBACK);
    assert_eq!(rt.lookup(&["api"]).unwrap().val, BOTTOM_FALLBACK);
    assert_eq!(rt.lookup(&["api", "v4"]).unwrap().val, BOTTOM_FALLBACK);
    assert_eq!(rt.lookup(&["api", "v4", "sign-up"]).unwrap().val, APP_API_V4_SIGNUP);
    assert_eq!(rt.lookup(&["api", "v4", "sign-in"]).unwrap().val, APP_API_V4_SIGNIN);
    assert_eq!(rt.lookup(&["api", "v4", "sign-in", "tail"]).unwrap().val, APP_API_V4_SIGNIN);
    assert_eq!(rt.lookup(&["api", "v4", "sign-out"]).unwrap().val, APP_API_V4_SIGNOUT);
    assert_eq!(rt.lookup(&["api", "v4", "DNE"]).unwrap().val, BOTTOM_FALLBACK);
}

#[test]
fn batch_register() {
    let gpp = more(&["GET", "POST", "PUT"]);
    let lr = more(&["localhost", "remote.org"]);
    let mut rt_more = RoutingTable::new(BOTTOM_FALLBACK);
    rt_more.reg_more(APP_API_V4_SIGNUP, &[gpp, lr, one("api"), one("v4"), one("sign-up")]);
    rt_more.reg_more(APP_API_V4_SIGNIN, &[gpp, lr, one("api"), one("v4"), one("sign-in")]);
    rt_more.reg_more(APP_API_V4_SIGNOUT, &[gpp, lr, one("api"), one("v4"), one("sign-out")]);

    assert_eq!(rt_more.lookup(&["GET", "localhost"]).unwrap().val, BOTTOM_FALLBACK);
    assert_eq!(rt_more.lookup(&["GET", "localhost", "api"]).unwrap().val, BOTTOM_FALLBACK);
    assert_eq!(rt_more.lookup(&["GET", "localhost", "api", "v4"]).unwrap().val, BOTTOM_FALLBACK);
    assert_eq!(rt_more.lookup(&["GET", "localhost", "api", "v4", "sign-up"]).unwrap().val, APP_API_V4_SIGNUP);
    assert_eq!(rt_more.lookup(&["POST", "localhost", "api", "v4", "sign-up"]).unwrap().val, APP_API_V4_SIGNUP);
    assert_eq!(rt_more.lookup(&["PUT", "localhost", "api", "v4", "sign-up"]).unwrap().val, APP_API_V4_SIGNUP);
    assert_eq!(rt_more.lookup(&["GET", "remote.org", "api", "v4", "sign-up"]).unwrap().val, APP_API_V4_SIGNUP);
    assert_eq!(rt_more.lookup(&["GET", "localhost", "api", "v4", "sign-in"]).unwrap().val, APP_API_V4_SIGNIN);
    assert_eq!(rt_more.lookup(&["GET", "localhost", "api", "v4", "sign-in", "tail"]).unwrap().val, APP_API_V4_SIGNIN);
    assert_eq!(rt_more.lookup(&["GET", "localhost", "api", "v4", "sign-out"]).unwrap().val, APP_API_V4_SIGNOUT);
    assert_eq!(rt_more.lookup(&["GET", "localhost", "api", "v4", "DNE"]).unwrap().val, BOTTOM_FALLBACK);
}

#[test]
fn batch_register_egonomic() {
    let gpp = par(&["GET", "POST", "PUT"]);
    let lr = par(&["localhost", "remote.org"]);
    let mut rt_more = RoutingTable::new(BOTTOM_FALLBACK);
    rt_more.reg_parallel(APP_API_V4_SIGNUP, &[gpp, lr, ser(&["api", "v4", "sign-up"])]);
    rt_more.reg_parallel(APP_API_V4_SIGNIN, &[gpp, lr, ser(&["api", "v4", "sign-in"])]);
    rt_more.reg_parallel(APP_API_V4_SIGNOUT, &[gpp, lr, ser(&["api", "v4", "sign-out"])]);

    assert_eq!(rt_more.lookup(&["GET", "localhost"]).unwrap().val, BOTTOM_FALLBACK);
    assert_eq!(rt_more.lookup(&["GET", "localhost", "api"]).unwrap().val, BOTTOM_FALLBACK);
    assert_eq!(rt_more.lookup(&["GET", "localhost", "api", "v4"]).unwrap().val, BOTTOM_FALLBACK);
    assert_eq!(rt_more.lookup(&["GET", "localhost", "api", "v4", "sign-up"]).unwrap().val, APP_API_V4_SIGNUP);
    assert_eq!(rt_more.lookup(&["POST", "localhost", "api", "v4", "sign-up"]).unwrap().val, APP_API_V4_SIGNUP);
    assert_eq!(rt_more.lookup(&["PUT", "localhost", "api", "v4", "sign-up"]).unwrap().val, APP_API_V4_SIGNUP);
    assert_eq!(rt_more.lookup(&["GET", "remote.org", "api", "v4", "sign-up"]).unwrap().val, APP_API_V4_SIGNUP);
    assert_eq!(rt_more.lookup(&["GET", "localhost", "api", "v4", "sign-in"]).unwrap().val, APP_API_V4_SIGNIN);
    assert_eq!(rt_more.lookup(&["GET", "localhost", "api", "v4", "sign-in", "tail"]).unwrap().val, APP_API_V4_SIGNIN);
    assert_eq!(rt_more.lookup(&["GET", "localhost", "api", "v4", "sign-out"]).unwrap().val, APP_API_V4_SIGNOUT);
    assert_eq!(rt_more.lookup(&["GET", "localhost", "api", "v4", "DNE"]).unwrap().val, BOTTOM_FALLBACK);
}

#[test]
fn lookup_reports_depth_and_keys_used() {
    let mut rt = RoutingTable::new(BOTTOM_FALLBACK);
    rt.register(APP_API_V4_SIGNUP, &["api", "v4", "sign-up"]);
    let res = rt.lookup(&["api", "v4", "other", "x"]).unwrap();
    assert_eq!(res.keys_used, 2);
    assert_eq!(res.depth, 2);
    assert_eq!(res.val, BOTTOM_FALLBACK);
    let res = rt.lookup(&["api", "v4", "sign-up", "x"]).unwrap();
    assert_eq!(res.keys_used, 3);
    assert_eq!(res.depth, 3);
    let res = rt.lookup(&["nope"]).unwrap();
    assert_eq!(res.keys_used, 0);
    assert_eq!(res.depth, 0);
}

#[test]
fn deeper_route_falls_back_to_registered_prefix() {
    let mut rt = RoutingTable::new(BOTTOM_FALLBACK);
    rt.register(APP_API_V4_SIGNUP, &["api"]);
    rt.register(APP_API_V4_SIGNIN, &["api", "v4", "sign-in"]);
    assert_eq!(rt.lookup(&["api", "v4"]).unwrap().val, APP_API_V4_SIGNUP);
    assert_eq!(rt.lookup(&["api", "v4", "x"]).unwrap().val, APP_API_V4_SIGNUP);
    assert_eq!(rt.lookup(&["api", "v4", "sign-in"]).unwrap().val, APP_API_V4_SIGNIN);
    assert_eq!(rt.lookup(&["other"]).unwrap().val, BOTTOM_FALLBACK);
}

#[test]
fn keep_going_continues_below_the_match() {
    let mut rt = RoutingTable::new(BOTTOM_FALLBACK);
    rt.register(APP_API_V4_SIGNUP, &["api", "v4", "sign-up"]);
    let res = rt.lookup(&["api"]).unwrap();
    let below = res.keep_going.lookup(&["v4", "sign-up"]).unwrap();
    assert_eq!(below.val, APP_API_V4_SIGNUP);
    assert_eq!(below.depth, 3);
    assert_eq!(below.keys_used, 2);
}

#[test]
fn segment_comparison() {
    assert!(str_eq("sign-in", "sign-in"));
    assert!(!str_eq("sign-in", "sign-up"));
    assert!(!str_eq("a", "ab"));
    assert!(str_eq("", ""));
}

#[test]
fn empty_level_registers_nothing() {
    let mut rt = RoutingTable::new(BOTTOM_FALLBACK);
    let none: [&str; 0] = [];
    rt.reg_more(APP_API_V4_SIGNUP, &[more(&["GET", "GET"]), more(&none), one("api")]);
    let res = rt.lookup(&["GET", "x", "api"]).unwrap();
    assert_eq!(res.val, BOTTOM_FALLBACK);
    assert_eq!(res.keys_used, 0);
}
