use minikv::process::{dispatch, get_action, Action, Config, Removal};
use minikv::store::Store;
use minikv::wire::ProtocolError;

fn v(s: &str) -> Vec<u8> {
    s.as_bytes().to_vec()
}

fn toks(words: &[&str]) -> Vec<Vec<u8>> {
    words.iter().map(|w| v(w)).collect()
}

fn no_config() -> Config {
    Config { dir: None, dbfilename: None }
}

fn full_config() -> Config {
    Config { dir: Some(v("/data")), dbfilename: Some(v("dump.rdb")) }
}

#[test]
fn ping_replies_pong() {
    let mut db = Store::new();
    let (reply, removal) = dispatch(&mut db, &no_config(), &toks(&["PING"])).unwrap();
    assert_eq!(reply, v("+PONG\r\n"));
    assert!(removal.is_none());
}

#[test]
fn echo_replies_argument() {
    let mut db = Store::new();
    let (reply, _) = dispatch(&mut db, &no_config(), &toks(&["ECHO", "hey"])).unwrap();
    assert_eq!(reply, v("$3\r\nhey\r\n"));
}

#[test]
fn get_unset_key_is_null() {
    let mut db = Store::new();
    let (reply, _) = dispatch(&mut db, &no_config(), &toks(&["GET", "nope"])).unwrap();
    assert_eq!(reply, v("$-1\r\n"));
}

#[test]
fn repeated_gets_agree() {
    let mut db = Store::new();
    dispatch(&mut db, &no_config(), &toks(&["SET", "k", "val"])).unwrap();
    let (first, _) = dispatch(&mut db, &no_config(), &toks(&["GET", "k"])).unwrap();
    let (second, _) = dispatch(&mut db, &no_config(), &toks(&["GET", "k"])).unwrap();
    assert_eq!(first, v("$3\r\nval\r\n"));
    assert_eq!(first, second);
}

#[test]
fn set_unset_key_replies_ok_then_prior_value() {
    let mut db = Store::new();
    let (first, _) = dispatch(&mut db, &no_config(), &toks(&["SET", "k", "one"])).unwrap();
    assert_eq!(first, v("+OK\r\n"));
    let (second, _) = dispatch(&mut db, &no_config(), &toks(&["SET", "k", "two"])).unwrap();
    assert_eq!(second, v("$3\r\none\r\n"));
    let (read, _) = dispatch(&mut db, &no_config(), &toks(&["GET", "k"])).unwrap();
    assert_eq!(read, v("$3\r\ntwo\r\n"));
}

#[test]
fn get_of_empty_value_is_null() {
    // a stored empty string is indistinguishable from an unset key
    let mut db = Store::new();
    dispatch(&mut db, &no_config(), &toks(&["SET", "k", ""])).unwrap();
    let (read, _) = dispatch(&mut db, &no_config(), &toks(&["GET", "k"])).unwrap();
    assert_eq!(read, v("$-1\r\n"));
    // yet SET still reports the empty prior value
    let (set, _) = dispatch(&mut db, &no_config(), &toks(&["SET", "k", "x"])).unwrap();
    assert_eq!(set, v("$0\r\n\r\n"));
}

#[test]
fn set_with_expiry_schedules_removal() {
    let mut db = Store::new();
    let (reply, removal) =
        dispatch(&mut db, &no_config(), &toks(&["SET", "k", "val", "px", "50"])).unwrap();
    assert_eq!(reply, v("+OK\r\n"));
    let Removal { key, delay_ms } = removal.unwrap();
    assert_eq!(key, v("k"));
    assert_eq!(delay_ms, 50);

    // before the timer fires the value is visible
    let (read, _) = dispatch(&mut db, &no_config(), &toks(&["GET", "k"])).unwrap();
    assert_eq!(read, v("$3\r\nval\r\n"));

    // the timer fires: the key is removed unconditionally
    db.remove(&key);
    let (read, _) = dispatch(&mut db, &no_config(), &toks(&["GET", "k"])).unwrap();
    assert_eq!(read, v("$-1\r\n"));
}

#[test]
fn expiry_duration_defaults_when_unparseable() {
    let mut db = Store::new();
    let (_, removal) =
        dispatch(&mut db, &no_config(), &toks(&["SET", "k", "v", "px", "soon"])).unwrap();
    assert_eq!(removal.unwrap().delay_ms, 200);
}

#[test]
fn expiry_duration_defaults_when_missing() {
    let mut db = Store::new();
    let (_, removal) = dispatch(&mut db, &no_config(), &toks(&["SET", "k", "v", "px"])).unwrap();
    assert_eq!(removal.unwrap().delay_ms, 200);
}

#[test]
fn serialized_sets_on_distinct_keys_all_visible() {
    let mut db = Store::new();
    for i in 0..16 {
        let (reply, _) = dispatch(
            &mut db,
            &no_config(),
            &toks(&["SET", &format!("key{}", i), &format!("val{}", i)]),
        )
        .unwrap();
        assert_eq!(reply, v("+OK\r\n"));
    }
    for i in 0..16 {
        let (read, _) =
            dispatch(&mut db, &no_config(), &toks(&["GET", &format!("key{}", i)])).unwrap();
        let val = format!("val{}", i);
        assert_eq!(read, v(&format!("${}\r\n{}\r\n", val.len(), val)));
    }
}

#[test]
fn config_get_dir() {
    let mut db = Store::new();
    let (reply, _) =
        dispatch(&mut db, &full_config(), &toks(&["CONFIG", "GET", "dir"])).unwrap();
    assert_eq!(reply, v("*2\r\n$3\r\ndir\r\n$5\r\n/data\r\n"));
}

#[test]
fn config_get_dbfilename_case_insensitive() {
    let mut db = Store::new();
    let (reply, _) =
        dispatch(&mut db, &full_config(), &toks(&["config", "get", "DBFILENAME"])).unwrap();
    // the parameter name is echoed back as it was sent
    assert_eq!(reply, v("*2\r\n$10\r\nDBFILENAME\r\n$8\r\ndump.rdb\r\n"));
}

#[test]
fn config_get_unset_parameter_fails() {
    let mut db = Store::new();
    assert_eq!(
        dispatch(&mut db, &no_config(), &toks(&["CONFIG", "GET", "dir"])),
        Err(ProtocolError::ValueUnset)
    );
}

#[test]
fn config_get_unknown_parameter_fails() {
    let mut db = Store::new();
    assert_eq!(
        dispatch(&mut db, &full_config(), &toks(&["CONFIG", "GET", "port"])),
        Err(ProtocolError::UnknownParameter)
    );
}

#[test]
fn keys_lists_store_contents() {
    let mut db = Store::new();
    let (reply, _) = dispatch(&mut db, &no_config(), &toks(&["KEYS", "*"])).unwrap();
    assert_eq!(reply, v("*0\r\n"));
    dispatch(&mut db, &no_config(), &toks(&["SET", "foo", "1"])).unwrap();
    dispatch(&mut db, &no_config(), &toks(&["SET", "bar", "2"])).unwrap();
    let (reply, _) = dispatch(&mut db, &no_config(), &toks(&["KEYS", "*"])).unwrap();
    assert_eq!(reply, v("*2\r\n$3\r\nfoo\r\n$3\r\nbar\r\n"));
}

#[test]
fn unknown_command_fails() {
    let mut db = Store::new();
    assert_eq!(
        dispatch(&mut db, &no_config(), &toks(&["FLUSHALL"])),
        Err(ProtocolError::UnknownCommand)
    );
}

#[test]
fn missing_argument_fails() {
    let mut db = Store::new();
    assert_eq!(
        dispatch(&mut db, &no_config(), &toks(&["GET"])),
        Err(ProtocolError::MissingArgument)
    );
    assert_eq!(
        dispatch(&mut db, &no_config(), &toks(&["SET", "k"])),
        Err(ProtocolError::MissingArgument)
    );
    assert_eq!(
        dispatch(&mut db, &no_config(), &toks(&["ECHO"])),
        Err(ProtocolError::MissingArgument)
    );
}

#[test]
fn empty_request_fails() {
    let mut db = Store::new();
    assert_eq!(dispatch(&mut db, &no_config(), &Vec::new()), Err(ProtocolError::Malformed));
}

#[test]
fn action_recognition_is_case_insensitive() {
    assert_eq!(get_action(&v("PiNg"), &toks(&["PiNg"])), Some(Action::Ping));
    assert_eq!(get_action(&v("SeT"), &toks(&["SeT", "k", "v"])), Some(Action::SetValue));
    assert_eq!(
        get_action(&v("set"), &toks(&["set", "k", "v", "px", "10"])),
        Some(Action::SetExpiry)
    );
    assert_eq!(get_action(&v("KEYS"), &toks(&["KEYS", "*"])), Some(Action::Keys));
    assert_eq!(get_action(&v("quit"), &toks(&["quit"])), None);
}

#[test]
fn full_request_cycle() {
    let mut db = Store::new();
    let set = minikv::wire::parse_request(&v("*3\r\n$3\r\nSET\r\n$3\r\nfoo\r\n$3\r\nbar\r\n")).unwrap();
    let (reply, removal) = dispatch(&mut db, &no_config(), &set).unwrap();
    assert_eq!(reply, v("+OK\r\n"));
    assert!(removal.is_none());
    let get = minikv::wire::parse_request(&v("*2\r\n$3\r\nGET\r\n$3\r\nfoo\r\n")).unwrap();
    let (reply, _) = dispatch(&mut db, &no_config(), &get).unwrap();
    assert_eq!(reply, v("$3\r\nbar\r\n"));
}
