use weblib::parse_url::{
    decode_url, parse_url, split_at_first_delim, DuplicateParamPolicy, ParsedUrl,
};

fn s(str: &str) -> String {
    String::from(str)
}

fn identity_decoder(s: &str) -> Result<String, ()> {
    Ok(String::from(s))
}

#[test]
fn test() {
    let pu01 = ParsedUrl::parse_new("/lol", identity_decoder).unwrap();
    assert_eq!(pu01.before_query, "/lol");
    assert_eq!(pu01.after_query, None);
    assert_eq!(pu01.decoded_segments.len(), 1);
    assert_eq!(pu01.decoded_segments[0], "lol");
    assert_eq!(pu01.decoded_queries.len(), 0);

    let pu02 = ParsedUrl::parse_new("", identity_decoder).unwrap();
    assert_eq!(pu02.before_query, "");
    assert_eq!(pu02.after_query, None);
    assert_eq!(pu02.decoded_segments.len(), 1);
    assert_eq!(pu02.decoded_segments[0], "");
    assert_eq!(pu02.decoded_queries.len(), 0);

    let pu03 = ParsedUrl::parse_new(
        "/api/pbv4/some-endpoint?arg1=val1&arg2=val2&arg3=val3",
        identity_decoder,
    )
    .unwrap();
    let qm03 = pu03.decoded_query_map("", DuplicateParamPolicy::KeepFirst).unwrap();
    assert_eq!(pu03.before_query, "/api/pbv4/some-endpoint");
    assert_eq!(pu03.after_query, Some("arg1=val1&arg2=val2&arg3=val3"));
    assert_eq!(pu03.decoded_segments.len(), 3);
    assert_eq!(pu03.decoded_segments[0], "api");
    assert_eq!(pu03.decoded_segments[1], "pbv4");
    assert_eq!(pu03.decoded_segments[2], "some-endpoint");
    assert_eq!(pu03.decoded_queries.len(), 3);
    assert_eq!(pu03.decoded_queries[0], (s("arg1"), Some(s("val1"))));
    assert_eq!(pu03.decoded_queries[1], (s("arg2"), Some(s("val2"))));
    assert_eq!(pu03.decoded_queries[2], (s("arg3"), Some(s("val3"))));
    assert_eq!(qm03.get("arg1"), Some(&s("val1")));
    assert_eq!(qm03.get("arg2"), Some(&s("val2")));
    assert_eq!(qm03.get("arg3"), Some(&s("val3")));
    assert_eq!(qm03.get("arg4"), None);

    let pu04 = ParsedUrl::parse_new("/?arg1&arg2", identity_decoder).unwrap();
    let qm04 = pu04.decoded_query_map("", DuplicateParamPolicy::KeepFirst).unwrap();
    assert_eq!(qm04.get("arg1"), Some(&s("")));
    assert_eq!(qm04.get("arg2"), Some(&s("")));
    assert_eq!(qm04.get("arg3"), None);

    let pu05 = ParsedUrl::parse_new("/path?id=1&id=2", identity_decoder).unwrap();
    let qm05 = pu05.decoded_query_map("", DuplicateParamPolicy::KeepFirst).unwrap();
    assert_eq!(qm05.get("id"), Some(&s("1")));
    let qm05 = pu05.decoded_query_map("", DuplicateParamPolicy::KeepLast).unwrap();
    assert_eq!(qm05.get("id"), Some(&s("2")));
    let qm05 = pu05.decoded_query_map("", DuplicateParamPolicy::ResultErr);
    assert!(qm05.is_err());
    let qm05 = pu05.decoded_query_map("", DuplicateParamPolicy::ConcatWithDelim("")).unwrap();
    assert_eq!(qm05.get("id"), Some(&s("12")));
    let qm05 = pu05.decoded_query_map("", DuplicateParamPolicy::ConcatWithDelim(" ")).unwrap();
    assert_eq!(qm05.get("id"), Some(&s("1 2")));

    let pu06 = ParsedUrl::parse_new("/path?noval1&noval2&noval2&noval2", identity_decoder).unwrap();
    let qm06 = pu06.decoded_query_map("null", DuplicateParamPolicy::ConcatWithDelim(" ")).unwrap();
    assert_eq!(qm06.get("noval1"), Some(&s("null")));
    assert_eq!(qm06.get("noval2"), Some(&s("null null null")));
}

#[test]
fn test_split_at_first_delim() {
    let (before, after) = split_at_first_delim("a=b", "=");
    assert_eq!((before, after), ("a", Some("b")));

    let (before, after) = split_at_first_delim("a=", "=");
    assert_eq!((before, after), ("a", Some("")));

    let (before, after) = split_at_first_delim("a", "=");
    assert_eq!((before, after), ("a", None));

    let (before, after) = split_at_first_delim("", "=");
    assert_eq!((before, after), ("", None));

    let (before, after) = split_at_first_delim("=====", "=");
    assert_eq!((before, after), ("", Some("====")));
}

#[test]
fn split_with_longer_delimiter() {
    let (before, after) = split_at_first_delim("ab::cd::ef", "::");
    assert_eq!((before, after), ("ab", Some("cd::ef")));
}

#[test]
fn duplicate_key_error_names_the_key() {
    let pu = ParsedUrl::parse_new("/p?a=1&b=2&a=3", identity_decoder).unwrap();
    match pu.decoded_query_map("", DuplicateParamPolicy::ResultErr) {
        Err(e) => assert_eq!(e.0, "a"),
        Ok(_) => panic!("a repeated key must be refused"),
    }
}

#[test]
fn query_map_keeps_first_seen_keys_and_values() {
    let pu = ParsedUrl::parse_new("/p?x=1&y&x=2&x=3", identity_decoder).unwrap();
    let qm = pu.decoded_query_map("-", DuplicateParamPolicy::ConcatWithDelim(",")).unwrap();
    assert_eq!(qm.get("x"), Some(&s("1,2,3")));
    assert_eq!(qm.get("y"), Some(&s("-")));
    let qm = pu.decoded_query_map("-", DuplicateParamPolicy::KeepLast).unwrap();
    assert_eq!(qm.get("x"), Some(&s("3")));
}

#[test]
fn segments_keep_empty_pieces() {
    let pu = ParsedUrl::parse_new("/a//b/", identity_decoder).unwrap();
    assert_eq!(pu.decoded_segments, vec![s("a"), s(""), s("b"), s("")]);
    let pu = ParsedUrl::parse_new("?q", identity_decoder).unwrap();
    assert_eq!(pu.before_query, "");
    assert_eq!(pu.decoded_segments, vec![s("")]);
    assert_eq!(pu.decoded_queries, vec![(s("q"), None)]);
}

#[test]
fn leading_character_is_left_out_whole() {
    let pu = ParsedUrl::parse_new("éa/b", identity_decoder).unwrap();
    assert_eq!(pu.decoded_segments, vec![s("a"), s("b")]);
}

fn failing_decoder(s: &str) -> Result<String, String> {
    if s == "bad" {
        Err(String::from("bad piece"))
    } else {
        Ok(String::from(s))
    }
}

fn naming_decoder(s: &str) -> Result<String, String> {
    if s.starts_with("bad") {
        Err(String::from(s))
    } else {
        Ok(String::from(s))
    }
}

#[test]
fn first_failing_piece_gives_the_error() {
    assert_eq!(ParsedUrl::parse_new("/bad1/bad2?bad3", naming_decoder).err(), Some(s("bad1")));
    assert_eq!(ParsedUrl::parse_new("/ok?bad3=bad4&bad5", naming_decoder).err(), Some(s("bad3")));
    assert_eq!(ParsedUrl::parse_new("/ok?k=bad5&bad6", naming_decoder).err(), Some(s("bad5")));
}

#[test]
fn decoder_errors_are_returned() {
    assert!(ParsedUrl::parse_new("/ok/bad", failing_decoder).is_err());
    assert!(ParsedUrl::parse_new("/ok?k=bad", failing_decoder).is_err());
    assert!(ParsedUrl::parse_new("/ok?bad", failing_decoder).is_err());
    assert!(ParsedUrl::parse_new("/ok?k=v", failing_decoder).is_ok());
}

#[test]
fn percent_decoding() {
    assert_eq!(decode_url("a%20b").ok(), Some(s("a b")));
    assert_eq!(decode_url("%41%62c").ok(), Some(s("Abc")));
    assert_eq!(decode_url("100%").ok(), Some(s("100%")));
    assert_eq!(decode_url("%zz").ok(), Some(s("%zz")));
    assert_eq!(decode_url("%C3%A9").ok(), Some(s("é")));
    assert!(decode_url("%FF").is_err());
}

#[test]
fn parse_url_decodes_every_piece() {
    let pu = parse_url("/hello%20world/x?name=J%C3%B6rg&flag").ok().unwrap();
    assert_eq!(pu.decoded_segments, vec![s("hello world"), s("x")]);
    assert_eq!(pu.decoded_queries[0], (s("name"), Some(s("Jörg"))));
    assert_eq!(pu.decoded_queries[1], (s("flag"), None));
    assert!(parse_url("/a%FFb").is_err());
    assert!(parse_url("/a?k=%FE").is_err());
}
