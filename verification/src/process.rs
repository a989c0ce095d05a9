//! The command engine: recognize a command from parsed request tokens,
//! dispatch it against the store and the configuration, and produce the
//! encoded reply plus, for SET with an expiry option, the removal to
//! schedule. The connection loop around it (socket reads and writes, timer
//! tasks) lives with the caller.

use vstd::prelude::*;

use crate::load::Mapping;
use crate::store::{clone_bytes, Store};
use crate::text::{digits_val, eq_lower, is_decimal, lower, parse_u64, views};
use crate::wire::{
    array_reply, bulk_reply, encode_array, encode_bulk, encode_null, encode_ok, encode_pong,
    null_reply, ok_reply, pong_reply, ProtocolError,
};

verus! {

/// The configuration surface the engine can answer queries about: the
/// snapshot directory and the snapshot file name, each optional.
pub struct Config {
    pub dir: Option<Vec<u8>>,
    pub dbfilename: Option<Vec<u8>>,
}

/// The byte string an optional byte vector denotes.
pub open spec fn opt_view(o: Option<Vec<u8>>) -> Option<Seq<u8>> {
    match o {
        Some(v) => Some(v@),
        None => None,
    }
}

/// A removal to schedule: after `delay_ms` milliseconds, remove `key` from
/// the store unconditionally.
#[derive(Debug, PartialEq, Eq)]
pub struct Removal {
    pub key: Vec<u8>,
    pub delay_ms: u64,
}

/// The recognized commands.
#[derive(Debug, PartialEq, Eq)]
pub enum Action {
    Echo,
    Ping,
    SetValue,
    SetExpiry,
    Get,
    Config,
    Keys,
}

/// Command names, lower case.
pub open spec fn echo_name() -> Seq<u8> {
    seq![101u8, 99u8, 104u8, 111u8]
}

pub open spec fn ping_name() -> Seq<u8> {
    seq![112u8, 105u8, 110u8, 103u8]
}

pub open spec fn set_name() -> Seq<u8> {
    seq![115u8, 101u8, 116u8]
}

pub open spec fn get_name() -> Seq<u8> {
    seq![103u8, 101u8, 116u8]
}

pub open spec fn config_name() -> Seq<u8> {
    seq![99u8, 111u8, 110u8, 102u8, 105u8, 103u8]
}

pub open spec fn keys_name() -> Seq<u8> {
    seq![107u8, 101u8, 121u8, 115u8]
}

/// The two recognized configuration parameters, lower case.
pub open spec fn dir_name() -> Seq<u8> {
    seq![100u8, 105u8, 114u8]
}

pub open spec fn dbfilename_name() -> Seq<u8> {
    seq![100u8, 98u8, 102u8, 105u8, 108u8, 101u8, 110u8, 97u8, 109u8, 101u8]
}

/// Which command a (case-folded) name token selects. A SET whose request
/// carries more tokens than the plain form is a SET with an expiry option:
/// the option is detected by the token count, not by its name.
pub open spec fn action_of(cmd: Seq<u8>, ntokens: nat) -> Option<Action> {
    let l = lower(cmd);
    if l == echo_name() {
        Some(Action::Echo)
    } else if l == ping_name() {
        Some(Action::Ping)
    } else if l == set_name() {
        if ntokens > 3 {
            Some(Action::SetExpiry)
        } else {
            Some(Action::SetValue)
        }
    } else if l == get_name() {
        Some(Action::Get)
    } else if l == config_name() {
        Some(Action::Config)
    } else if l == keys_name() {
        Some(Action::Keys)
    } else {
        None
    }
}

/// Build the lower-case name a spec-level name function denotes, so that a
/// token can be compared against it case-insensitively.
fn name_echo() -> (r: Vec<u8>)
    ensures
        r@ == echo_name(),
{
    let mut r: Vec<u8> = Vec::new();
    r.push(101);
    r.push(99);
    r.push(104);
    r.push(111);
    assert(r@ =~= echo_name());
    r
}

fn name_ping() -> (r: Vec<u8>)
    ensures
        r@ == ping_name(),
{
    let mut r: Vec<u8> = Vec::new();
    r.push(112);
    r.push(105);
    r.push(110);
    r.push(103);
    assert(r@ =~= ping_name());
    r
}

fn name_set() -> (r: Vec<u8>)
    ensures
        r@ == set_name(),
{
    let mut r: Vec<u8> = Vec::new();
    r.push(115);
    r.push(101);
    r.push(116);
    assert(r@ =~= set_name());
    r
}

fn name_get() -> (r: Vec<u8>)
    ensures
        r@ == get_name(),
{
    let mut r: Vec<u8> = Vec::new();
    r.push(103);
    r.push(101);
    r.push(116);
    assert(r@ =~= get_name());
    r
}

fn name_config() -> (r: Vec<u8>)
    ensures
        r@ == config_name(),
{
    let mut r: Vec<u8> = Vec::new();
    r.push(99);
    r.push(111);
    r.push(110);
    r.push(102);
    r.push(105);
    r.push(103);
    assert(r@ =~= config_name());
    r
}

fn name_keys() -> (r: Vec<u8>)
    ensures
        r@ == keys_name(),
{
    let mut r: Vec<u8> = Vec::new();
    r.push(107);
    r.push(101);
    r.push(121);
    r.push(115);
    assert(r@ =~= keys_name());
    r
}

fn name_dir() -> (r: Vec<u8>)
    ensures
        r@ == dir_name(),
{
    let mut r: Vec<u8> = Vec::new();
    r.push(100);
    r.push(105);
    r.push(114);
    assert(r@ =~= dir_name());
    r
}

fn name_dbfilename() -> (r: Vec<u8>)
    ensures
        r@ == dbfilename_name(),
{
    let mut r: Vec<u8> = Vec::new();
    r.push(100);
    r.push(98);
    r.push(102);
    r.push(105);
    r.push(108);
    r.push(101);
    r.push(110);
    r.push(97);
    r.push(109);
    r.push(101);
    assert(r@ =~= dbfilename_name());
    r
}

/// Recognize the command named by `s`, arrived with the tokens `col`.
pub fn get_action(s: &Vec<u8>, col: &Vec<Vec<u8>>) -> (r: Option<Action>)
    ensures
        r == action_of(s@, col@.len() as nat),
{
    proof {
        assert(lower(echo_name()) =~= echo_name());
        assert(lower(ping_name()) =~= ping_name());
        assert(lower(set_name()) =~= set_name());
        assert(lower(get_name()) =~= get_name());
        assert(lower(config_name()) =~= config_name());
        assert(lower(keys_name()) =~= keys_name());
    }
    if eq_lower(s, &name_echo()) {
        Some(Action::Echo)
    } else if eq_lower(s, &name_ping()) {
        Some(Action::Ping)
    } else if eq_lower(s, &name_set()) {
        if col.len() > 3 {
            Some(Action::SetExpiry)
        } else {
            Some(Action::SetValue)
        }
    } else if eq_lower(s, &name_get()) {
        Some(Action::Get)
    } else if eq_lower(s, &name_config()) {
        Some(Action::Config)
    } else if eq_lower(s, &name_keys()) {
        Some(Action::Keys)
    } else {
        None
    }
}

/// The reply GET gives: the value as a bulk string, or the null bulk reply
/// when the key is absent or its stored value is the empty string (the two
/// are indistinguishable by design).
pub open spec fn get_reply(m: Mapping, key: Seq<u8>) -> Seq<u8> {
    if m.contains_key(key) && m[key].len() > 0 {
        bulk_reply(m[key])
    } else {
        null_reply()
    }
}

/// The reply SET gives: the previous value as a bulk string if the key was
/// set, else the OK status.
pub open spec fn set_reply(m: Mapping, key: Seq<u8>) -> Seq<u8> {
    if m.contains_key(key) {
        bulk_reply(m[key])
    } else {
        ok_reply()
    }
}

/// The removal delay a SET-with-expiry schedules: the fifth token parsed as
/// a decimal number of milliseconds, or 200 when it is missing or does not
/// parse.
pub open spec fn duration_of(tokens: Seq<Seq<u8>>) -> u64 {
    if tokens.len() >= 5 && is_decimal(tokens[4]) {
        digits_val(tokens[4], 0, tokens[4].len() as int) as u64
    } else {
        200
    }
}

/// `ks` lists the domain of `m`: each key exactly once, in some order.
pub open spec fn keys_listing(ks: Seq<Seq<u8>>, m: Mapping) -> bool {
    &&& forall|i: int, j: int| 0 <= i < j < ks.len() ==> ks[i] != ks[j]
    &&& forall|k: Seq<u8>| m.contains_key(k) <==> ks.contains(k)
}

/// The tokens select the KEYS command.
pub open spec fn is_keys_command(tokens: Seq<Seq<u8>>) -> bool {
    tokens.len() > 0 && action_of(tokens[0], tokens.len()) == Some(Action::Keys)
}

/// An optional scheduled removal matches its specification.
pub open spec fn removal_matches(r: Option<Removal>, s: Option<(Seq<u8>, u64)>) -> bool {
    match (r, s) {
        (Some(a), Some(b)) => a.key@ == b.0 && a.delay_ms == b.1,
        (None, None) => true,
        _ => false,
    }
}

/// What dispatching one command does: the reply bytes, the store mapping
/// afterwards, and the removal to schedule, or the error that ends the
/// connection. `ks` is the order in which KEYS lists the store's keys; no
/// other command depends on it.
pub open spec fn dispatch_spec(
    m: Mapping,
    dir: Option<Seq<u8>>,
    dbfilename: Option<Seq<u8>>,
    tokens: Seq<Seq<u8>>,
    ks: Seq<Seq<u8>>,
) -> Result<(Seq<u8>, Mapping, Option<(Seq<u8>, u64)>), ProtocolError> {
    if tokens.len() == 0 {
        Err(ProtocolError::Malformed)
    } else {
        match action_of(tokens[0], tokens.len()) {
            None => Err(ProtocolError::UnknownCommand),
            Some(Action::Ping) => Ok((pong_reply(), m, None)),
            Some(Action::Echo) => if tokens.len() < 2 {
                Err(ProtocolError::MissingArgument)
            } else {
                Ok((bulk_reply(tokens[1]), m, None))
            },
            Some(Action::Get) => if tokens.len() < 2 {
                Err(ProtocolError::MissingArgument)
            } else {
                Ok((get_reply(m, tokens[1]), m, None))
            },
            Some(Action::SetValue) => if tokens.len() < 3 {
                Err(ProtocolError::MissingArgument)
            } else {
                Ok((set_reply(m, tokens[1]), m.insert(tokens[1], tokens[2]), None))
            },
            Some(Action::SetExpiry) => if tokens.len() < 3 {
                Err(ProtocolError::MissingArgument)
            } else {
                Ok(
                    (
                        set_reply(m, tokens[1]),
                        m.insert(tokens[1], tokens[2]),
                        Some((tokens[1], duration_of(tokens))),
                    ),
                )
            },
            Some(Action::Config) => if tokens.len() < 3 {
                Err(ProtocolError::MissingArgument)
            } else {
                let param = tokens[2];
                if lower(param) == dir_name() {
                    match dir {
                        Some(d) => Ok((array_reply(seq![param, d]), m, None)),
                        None => Err(ProtocolError::ValueUnset),
                    }
                } else if lower(param) == dbfilename_name() {
                    match dbfilename {
                        Some(d) => Ok((array_reply(seq![param, d]), m, None)),
                        None => Err(ProtocolError::ValueUnset),
                    }
                } else {
                    Err(ProtocolError::UnknownParameter)
                }
            },
            Some(Action::Keys) => Ok((array_reply(ks), m, None)),
        }
    }
}

/// Dispatch one parsed command against the store and the configuration.
///
/// On success the reply bytes, and for SET with an expiry option the
/// removal the caller must schedule, are returned; the store is mutated as
/// the command demands. On an error the store is unchanged and the
/// connection's command loop ends.
pub fn dispatch(db: &mut Store, config: &Config, tokens: &Vec<Vec<u8>>) -> (r: Result<
    (Vec<u8>, Option<Removal>),
    ProtocolError,
>)
    requires
        old(db).wf(),
    ensures
        final(db).wf(),
        !is_keys_command(views(tokens@)) ==> (match dispatch_spec(
            old(db)@,
            opt_view(config.dir),
            opt_view(config.dbfilename),
            views(tokens@),
            Seq::<Seq<u8>>::empty(),
        ) {
            Ok(out) => r is Ok && r->Ok_0.0@ == out.0 && final(db)@ == out.1 && removal_matches(
                r->Ok_0.1,
                out.2,
            ),
            Err(e) => r == Err::<(Vec<u8>, Option<Removal>), ProtocolError>(e) && final(db)@
                == old(db)@,
        }),
        is_keys_command(views(tokens@)) ==> exists|ks: Seq<Seq<u8>>|
            #![auto]
            keys_listing(ks, old(db)@) && r is Ok && r->Ok_0.0@ == array_reply(ks) && r->Ok_0.1
                is None && final(db)@ == old(db)@,
{
    let ghost toks = views(tokens@);
    let ghost ks0 = Seq::<Seq<u8>>::empty();
    if tokens.len() == 0 {
        return Err(ProtocolError::Malformed);
    }
    proof {
        assert(toks[0] == tokens@[0]@);
        assert forall|j: int| 0 <= j < tokens@.len() implies toks[j] == tokens@[j]@ by {}
    }
    let action = match get_action(&tokens[0], tokens) {
        None => {
            return Err(ProtocolError::UnknownCommand);
        },
        Some(a) => a,
    };
    match action {
        Action::Ping => Ok((encode_pong(), None)),
        Action::Echo => {
            if tokens.len() < 2 {
                return Err(ProtocolError::MissingArgument);
            }
            Ok((encode_bulk(&tokens[1]), None))
        },
        Action::Get => {
            if tokens.len() < 2 {
                return Err(ProtocolError::MissingArgument);
            }
            match db.get(&tokens[1]) {
                Some(v) => {
                    if v.len() > 0 {
                        Ok((encode_bulk(&v), None))
                    } else {
                        Ok((encode_null(), None))
                    }
                },
                None => Ok((encode_null(), None)),
            }
        },
        Action::SetValue => {
            if tokens.len() < 3 {
                return Err(ProtocolError::MissingArgument);
            }
            let reply = match db.set(clone_bytes(&tokens[1]), clone_bytes(&tokens[2])) {
                Some(p) => encode_bulk(&p),
                None => encode_ok(),
            };
            Ok((reply, None))
        },
        Action::SetExpiry => {
            if tokens.len() < 3 {
                return Err(ProtocolError::MissingArgument);
            }
            let reply = match db.set(clone_bytes(&tokens[1]), clone_bytes(&tokens[2])) {
                Some(p) => encode_bulk(&p),
                None => encode_ok(),
            };
            let delay: u64 = if tokens.len() >= 5 {
                match parse_u64(&tokens[4]) {
                    Some(d) => d,
                    None => 200,
                }
            } else {
                200
            };
            Ok((reply, Some(Removal { key: clone_bytes(&tokens[1]), delay_ms: delay })))
        },
        Action::Config => {
            if tokens.len() < 3 {
                return Err(ProtocolError::MissingArgument);
            }
            proof {
                assert(lower(dir_name()) =~= dir_name());
                assert(lower(dbfilename_name()) =~= dbfilename_name());
            }
            let param = &tokens[2];
            if eq_lower(param, &name_dir()) {
                match &config.dir {
                    Some(d) => {
                        let mut items: Vec<Vec<u8>> = Vec::new();
                        items.push(clone_bytes(param));
                        items.push(clone_bytes(d));
                        proof {
                            assert(views(items@) =~= seq![param@, d@]);
                        }
                        Ok((encode_array(&items), None))
                    },
                    None => Err(ProtocolError::ValueUnset),
                }
            } else if eq_lower(param, &name_dbfilename()) {
                match &config.dbfilename {
                    Some(d) => {
                        let mut items: Vec<Vec<u8>> = Vec::new();
                        items.push(clone_bytes(param));
                        items.push(clone_bytes(d));
                        proof {
                            assert(views(items@) =~= seq![param@, d@]);
                        }
                        Ok((encode_array(&items), None))
                    },
                    None => Err(ProtocolError::ValueUnset),
                }
            } else {
                Err(ProtocolError::UnknownParameter)
            }
        },
        Action::Keys => {
            let key_list = db.keys();
            let reply = encode_array(&key_list);
            proof {
                let ghost ks = views(key_list@);
                assert(keys_listing(ks, old(db)@)) by {
                    assert(forall|i: int|
                        0 <= i < ks.len() ==> ks[i] == #[trigger] key_list@[i]@);
                    assert forall|k: Seq<u8>| old(db)@.contains_key(k) implies ks.contains(k) by {
                        let w = choose|w: int|
                            0 <= w < key_list@.len() && key_list@[w]@ == k;
                        assert(ks[w] == k);
                    }
                    assert forall|k: Seq<u8>| ks.contains(k) implies old(db)@.contains_key(
                        k,
                    ) by {
                        let w = choose|w: int| 0 <= w < ks.len() && ks[w] == k;
                        assert(key_list@[w]@ == k);
                    }
                }
            }
            Ok((reply, None))
        },
    }
}

/// Law: GET never mutates the store — the mapping it returns is the one it
/// was given — so repeated GETs with no intervening mutation all return the
/// same reply; and on an unset key that reply is the null bulk reply.
pub proof fn lemma_get_idempotent(
    m: Mapping,
    dir: Option<Seq<u8>>,
    dbfilename: Option<Seq<u8>>,
    tokens: Seq<Seq<u8>>,
    ks: Seq<Seq<u8>>,
)
    requires
        tokens.len() == 2,
        action_of(tokens[0], tokens.len()) == Some(Action::Get),
    ensures
        dispatch_spec(m, dir, dbfilename, tokens, ks) == Ok::<
            (Seq<u8>, Mapping, Option<(Seq<u8>, u64)>),
            ProtocolError,
        >((get_reply(m, tokens[1]), m, None)),
        !m.contains_key(tokens[1]) ==> get_reply(m, tokens[1]) == null_reply(),
{
}

/// Law: SET on an unset key replies the OK status; on a set key it replies
/// the prior value as a bulk string; in both cases the store afterwards
/// maps the key to the new value, so a following GET reflects it (as a
/// bulk-string reply whenever the new value is not the empty string, which
/// GET cannot distinguish from an unset key).
pub proof fn lemma_set_overwrite(
    m: Mapping,
    dir: Option<Seq<u8>>,
    dbfilename: Option<Seq<u8>>,
    tokens: Seq<Seq<u8>>,
    ks: Seq<Seq<u8>>,
)
    requires
        tokens.len() == 3,
        action_of(tokens[0], tokens.len()) == Some(Action::SetValue),
    ensures
        ({
            let d = dispatch_spec(m, dir, dbfilename, tokens, ks);
            &&& d is Ok
            &&& d->Ok_0.1 == m.insert(tokens[1], tokens[2])
            &&& d->Ok_0.2 is None
            &&& (!m.contains_key(tokens[1]) ==> d->Ok_0.0 == ok_reply())
            &&& (m.contains_key(tokens[1]) ==> d->Ok_0.0 == bulk_reply(m[tokens[1]]))
        }),
        tokens[2].len() > 0 ==> get_reply(m.insert(tokens[1], tokens[2]), tokens[1]) == bulk_reply(
            tokens[2],
        ),
{
}

/// Law: serialized SETs on distinct keys lose no update: dispatched in
/// either order they leave the same store, and each key then holds its own
/// value.
pub proof fn lemma_concurrent_sets(
    m: Mapping,
    dir: Option<Seq<u8>>,
    dbfilename: Option<Seq<u8>>,
    t1: Seq<Seq<u8>>,
    t2: Seq<Seq<u8>>,
    ks: Seq<Seq<u8>>,
)
    requires
        t1.len() == 3,
        t2.len() == 3,
        action_of(t1[0], t1.len()) == Some(Action::SetValue),
        action_of(t2[0], t2.len()) == Some(Action::SetValue),
        t1[1] != t2[1],
    ensures
        ({
            let d12 = dispatch_spec(
                dispatch_spec(m, dir, dbfilename, t1, ks)->Ok_0.1,
                dir,
                dbfilename,
                t2,
                ks,
            );
            let d21 = dispatch_spec(
                dispatch_spec(m, dir, dbfilename, t2, ks)->Ok_0.1,
                dir,
                dbfilename,
                t1,
                ks,
            );
            &&& d12 is Ok
            &&& d21 is Ok
            &&& d12->Ok_0.1 == d21->Ok_0.1
            &&& d12->Ok_0.1.contains_key(t1[1]) && d12->Ok_0.1[t1[1]] == t1[2]
            &&& d12->Ok_0.1.contains_key(t2[1]) && d12->Ok_0.1[t2[1]] == t2[2]
        }),
{
    assert(m.insert(t1[1], t1[2]).insert(t2[1], t2[2]) =~= m.insert(t2[1], t2[2]).insert(
        t1[1],
        t1[2],
    ));
}

/// Law: CONFIG GET on the directory parameter replies with exactly the
/// two-element array of the echoed parameter name and the configured
/// directory, and leaves the store alone.
pub proof fn lemma_config_dir(
    m: Mapping,
    dir: Option<Seq<u8>>,
    dbfilename: Option<Seq<u8>>,
    tokens: Seq<Seq<u8>>,
    ks: Seq<Seq<u8>>,
    d: Seq<u8>,
)
    requires
        tokens.len() == 3,
        action_of(tokens[0], tokens.len()) == Some(Action::Config),
        lower(tokens[2]) == dir_name(),
        dir == Some(d),
    ensures
        dispatch_spec(m, dir, dbfilename, tokens, ks) == Ok::<
            (Seq<u8>, Mapping, Option<(Seq<u8>, u64)>),
            ProtocolError,
        >((array_reply(seq![tokens[2], d]), m, None)),
{
}

} // verus!
