//! Connection handler: the per-connection protocol semantics. A handler
//! owns one client connection, decodes its frames, mutates the registry,
//! and decides which frame to publish on the fanout. The surrounding
//! transport pump only moves bytes; every decision is here.

use vstd::prelude::*;
use crate::codec::{
    decode, encode, encode_record, spec_envelope_bytes, spec_record_bytes, sp_envelope, ChatRecord,
    EnvData, Envelope, RecData,
};
use crate::fanout::Fanout;
use crate::registry::{spec_register_pairs, spec_unregister_pairs, Registry};
use crate::default_sender;

verus! {

/// `register`
pub open spec fn tag_register() -> Seq<u8> {
    seq![114u8, 101u8, 103u8, 105u8, 115u8, 116u8, 101u8, 114u8]
}

/// `typing`
pub open spec fn tag_typing() -> Seq<u8> {
    seq![116u8, 121u8, 112u8, 105u8, 110u8, 103u8]
}

/// `message`
pub open spec fn tag_message() -> Seq<u8> {
    seq![109u8, 101u8, 115u8, 115u8, 97u8, 103u8, 101u8]
}

/// `users`
pub open spec fn tag_users() -> Seq<u8> {
    seq![117u8, 115u8, 101u8, 114u8, 115u8]
}

/// The roster broadcast sent after a registration change.
pub open spec fn users_env(roster: Seq<Seq<u8>>) -> EnvData {
    EnvData { message_type: tag_users(), data: None, data_array: Some(roster) }
}

/// The relayed typing notice: the claimed name passes through unchanged.
pub open spec fn typing_env(nick: Seq<u8>) -> EnvData {
    EnvData { message_type: tag_typing(), data: Some(nick), data_array: None }
}

/// The relayed chat message: its payload is an encoded chat record.
pub open spec fn message_env(payload: Seq<u8>) -> EnvData {
    EnvData { message_type: tag_message(), data: Some(payload), data_array: None }
}

/// The sender a chat message is attributed to: the registered name, or the
/// sentinel default when the identity never registered.
pub open spec fn sender_name(resolved: Option<Seq<u8>>) -> Seq<u8> {
    match resolved {
        Some(n) => n,
        None => default_sender(),
    }
}

/// The display name a client frame registers, when it is a well-formed
/// `register` carrying one.
pub open spec fn registers_nick(env: Option<EnvData>) -> Option<Seq<u8>> {
    match env {
        Some(e) => if e.message_type == tag_register() {
            e.data
        } else {
            None
        },
        None => None,
    }
}

/// The frame the relay publishes in reaction to one client frame:
/// a fresh roster for `register`, the notice itself for `typing`, an
/// attributed, timestamped chat record for `message`; nothing for a
/// malformed frame, an unrecognized kind, or a missing payload.
pub open spec fn step_publish(
    env: Option<EnvData>,
    resolved: Option<Seq<u8>>,
    roster_after: Seq<Seq<u8>>,
    now: int,
) -> Option<Seq<u8>> {
    match env {
        None => None,
        Some(e) => if e.message_type == tag_register() {
            match e.data {
                Some(_) => Some(spec_envelope_bytes(users_env(roster_after))),
                None => None,
            }
        } else if e.message_type == tag_typing() {
            match e.data {
                Some(nick) => Some(spec_envelope_bytes(typing_env(nick))),
                None => None,
            }
        } else if e.message_type == tag_message() {
            match e.data {
                Some(text) => Some(
                    spec_envelope_bytes(
                        message_env(
                            spec_record_bytes(
                                RecData {
                                    from: sender_name(resolved),
                                    message: text,
                                    time: Some(now),
                                },
                            ),
                        ),
                    ),
                ),
                None => None,
            }
        } else {
            None
        },
    }
}

/// A chat message from an identity that never registered is still
/// published — attributed to the sentinel default name, not omitted.
pub proof fn lemma_unregistered_message_attributed(env: EnvData, roster: Seq<Seq<u8>>, now: int)
    requires
        env.message_type == tag_message(),
        env.data is Some,
    ensures
        step_publish(Some(env), None, roster, now) == Some(
            spec_envelope_bytes(
                message_env(
                    spec_record_bytes(
                        RecData {
                            from: default_sender(),
                            message: env.data.unwrap(),
                            time: Some(now),
                        },
                    ),
                ),
            ),
        ),
{
}

/// Where a connection stands: transport open but never registered, present
/// in the registry, or gone.
#[derive(PartialEq, Eq, Structural, Clone, Copy, Debug)]
pub enum ConnState {
    Connected,
    Registered,
    Closed,
}

/// One client connection: its process-unique identity and where it stands.
pub struct Session {
    pub identity: u64,
    pub state: ConnState,
}

/// Relies on chrono::Utc::now and timestamp_millis: the clock's reading in
/// milliseconds since the epoch. Nothing is assumed of the value.
#[verifier::external_body]
fn now_millis() -> i64 {
    chrono::Utc::now().timestamp_millis()
}

/// Whether the two byte vectors hold the same bytes.
fn bytes_eq(a: &Vec<u8>, b: &Vec<u8>) -> (r: bool)
    ensures
        r <==> a@ == b@,
{
    if a.len() != b.len() {
        return false;
    }
    let mut i: usize = 0;
    while i < a.len()
        invariant
            a@.len() == b@.len(),
            i <= a@.len(),
            forall|k: int| 0 <= k < i ==> a@[k] == b@[k],
        decreases a@.len() - i,
    {
        if a[i] != b[i] {
            return false;
        }
        i = i + 1;
    }
    proof {
        assert(a@ =~= b@);
    }
    true
}

/// `register` as a vector.
fn make_tag_register() -> (v: Vec<u8>)
    ensures
        v@ == tag_register(),
{
    let v: Vec<u8> = vec![114u8, 101u8, 103u8, 105u8, 115u8, 116u8, 101u8, 114u8];
    proof {
        assert(v@ =~= tag_register());
    }
    v
}

/// `typing` as a vector.
fn make_tag_typing() -> (v: Vec<u8>)
    ensures
        v@ == tag_typing(),
{
    let v: Vec<u8> = vec![116u8, 121u8, 112u8, 105u8, 110u8, 103u8];
    proof {
        assert(v@ =~= tag_typing());
    }
    v
}

/// `message` as a vector.
fn make_tag_message() -> (v: Vec<u8>)
    ensures
        v@ == tag_message(),
{
    let v: Vec<u8> = vec![109u8, 101u8, 115u8, 115u8, 97u8, 103u8, 101u8];
    proof {
        assert(v@ =~= tag_message());
    }
    v
}

/// `users` as a vector.
fn make_tag_users() -> (v: Vec<u8>)
    ensures
        v@ == tag_users(),
{
    let v: Vec<u8> = vec![117u8, 115u8, 101u8, 114u8, 115u8];
    proof {
        assert(v@ =~= tag_users());
    }
    v
}

/// The sentinel default sender as a vector.
fn make_default_sender() -> (v: Vec<u8>)
    ensures
        v@ == default_sender(),
{
    let v: Vec<u8> = vec![97u8, 110u8, 111u8, 110u8, 121u8, 109u8, 111u8, 117u8, 115u8];
    proof {
        assert(v@ =~= default_sender());
    }
    v
}

/// Builds the `users` envelope for the registry's current roster.
fn users_frame(reg: &Registry) -> (out: Vec<u8>)
    ensures
        out@ == spec_envelope_bytes(users_env(reg.spec_names())),
{
    let names = reg.snapshot();
    let env = Envelope { message_type: make_tag_users(), data: None, data_array: Some(names) };
    let out = encode(&env);
    proof {
        assert(env@.data_array.unwrap() =~~= reg.spec_names());
        assert(env@ =~~= users_env(reg.spec_names()));
    }
    out
}

impl Session {
    /// A fresh session for an accepted connection, not yet registered.
    pub fn new(identity: u64) -> (s: Session)
        ensures
            s.identity == identity,
            s.state == ConnState::Connected,
    {
        Session { identity, state: ConnState::Connected }
    }

    /// Applies one client text frame at time `now` (epoch milliseconds).
    ///
    /// A well-formed `register` records the name and yields the fresh
    /// roster broadcast; `typing` yields the notice unchanged; `message`
    /// yields a chat record attributed to the registered name — or to the
    /// sentinel default when the identity never registered — stamped with
    /// `now`. A malformed frame, an unrecognized kind, or a missing
    /// payload changes nothing and yields nothing, and the connection
    /// stays open.
    pub fn on_client_text(
        &mut self,
        reg: &mut Registry,
        text: &Vec<u8>,
        now: i64,
    ) -> (out: Option<Vec<u8>>)
        requires
            old(self).state != ConnState::Closed,
            old(reg).wf(),
        ensures
            final(reg).wf(),
            final(self).identity == old(self).identity,
            final(reg).model() =~= (match registers_nick(sp_envelope(text@)) {
                Some(nick) => spec_register_pairs(old(reg).model(), old(self).identity, nick),
                None => old(reg).model(),
            }),
            final(self).state == (if registers_nick(sp_envelope(text@)) is Some {
                ConnState::Registered
            } else {
                old(self).state
            }),
            (match out {
                Some(f) => step_publish(
                    sp_envelope(text@),
                    old(reg).spec_resolve(old(self).identity),
                    final(reg).spec_names(),
                    now as int,
                ) == Some(f@),
                None => step_publish(
                    sp_envelope(text@),
                    old(reg).spec_resolve(old(self).identity),
                    final(reg).spec_names(),
                    now as int,
                ) is None,
            }),
    {
        let parsed = match decode(text) {
            Ok(e) => e,
            Err(_) => { return None; },
        };
        let Envelope { message_type, data, data_array: _ } = parsed;
        let t_register = make_tag_register();
        let t_typing = make_tag_typing();
        let t_message = make_tag_message();
        if bytes_eq(&message_type, &t_register) {
            match data {
                Some(nick) => {
                    reg.register(self.identity, nick);
                    self.state = ConnState::Registered;
                    Some(users_frame(reg))
                },
                None => None,
            }
        } else if bytes_eq(&message_type, &t_typing) {
            match data {
                Some(nick) => {
                    let env = Envelope {
                        message_type: make_tag_typing(),
                        data: Some(nick),
                        data_array: None,
                    };
                    let out = encode(&env);
                    proof {
                        assert(env@ =~~= typing_env(sp_envelope(text@).unwrap().data.unwrap()));
                    }
                    Some(out)
                },
                None => None,
            }
        } else if bytes_eq(&message_type, &t_message) {
            match data {
                Some(msg_text) => {
                    let from = match reg.resolve(self.identity) {
                        Some(n) => n,
                        None => make_default_sender(),
                    };
                    let rec = ChatRecord { from, message: msg_text, time: Some(now) };
                    let payload = encode_record(&rec);
                    let env = Envelope {
                        message_type: make_tag_message(),
                        data: Some(payload),
                        data_array: None,
                    };
                    let out = encode(&env);
                    proof {
                        assert(rec@ =~~= RecData {
                            from: sender_name(old(reg).spec_resolve(old(self).identity)),
                            message: sp_envelope(text@).unwrap().data.unwrap(),
                            time: Some(now as int),
                        });
                        assert(env@ =~~= message_env(spec_record_bytes(rec@)));
                    }
                    Some(out)
                },
                None => None,
            }
        } else {
            None
        }
    }

    /// Applies one client text frame, stamping any chat message with the
    /// clock's current time. The registry effect, the state transition and
    /// the choice of published frame are those of [`Session::on_client_text`];
    /// only the timestamp inside a chat record depends on when the call runs.
    pub fn on_client_text_now(&mut self, reg: &mut Registry, text: &Vec<u8>) -> (out: Option<
        Vec<u8>,
    >)
        requires
            old(self).state != ConnState::Closed,
            old(reg).wf(),
        ensures
            final(reg).wf(),
            final(self).identity == old(self).identity,
            final(reg).model() =~= (match registers_nick(sp_envelope(text@)) {
                Some(nick) => spec_register_pairs(old(reg).model(), old(self).identity, nick),
                None => old(reg).model(),
            }),
            final(self).state == (if registers_nick(sp_envelope(text@)) is Some {
                ConnState::Registered
            } else {
                old(self).state
            }),
            (match out {
                Some(f) => exists|t: i64|
                    step_publish(
                        sp_envelope(text@),
                        old(reg).spec_resolve(old(self).identity),
                        final(reg).spec_names(),
                        t as int,
                    ) == Some(f@),
                None => step_publish(
                    sp_envelope(text@),
                    old(reg).spec_resolve(old(self).identity),
                    final(reg).spec_names(),
                    0,
                ) is None,
            }),
    {
        let now = now_millis();
        self.on_client_text(reg, text, now)
    }

    /// Ends the session: the transport is gone, so the identity leaves the
    /// registry — idempotently — and the fresh roster broadcast is handed
    /// back for publication, so no departed name lingers in any later
    /// `users` view.
    pub fn on_disconnect(&mut self, reg: &mut Registry) -> (out: Vec<u8>)
        requires
            old(reg).wf(),
        ensures
            final(reg).wf(),
            final(self).identity == old(self).identity,
            final(self).state == ConnState::Closed,
            final(reg).model() =~= spec_unregister_pairs(old(reg).model(), old(self).identity),
            !final(reg).spec_contains(old(self).identity),
            out@ == spec_envelope_bytes(users_env(final(reg).spec_names())),
    {
        reg.unregister(self.identity);
        self.state = ConnState::Closed;
        users_frame(reg)
    }
}

/// Applies one client text frame and publishes the reaction, if any, on
/// the fanout, where every subscriber will observe it in publish order.
/// The registry effect and the state transition are those of
/// [`Session::on_client_text`]; the fanout's history grows by exactly the
/// frame that [`step_publish`] prescribes, or not at all.
pub fn relay_client_text(
    session: &mut Session,
    reg: &mut Registry,
    fan: &mut Fanout,
    text: &Vec<u8>,
    now: i64,
) -> (published: bool)
    requires
        old(session).state != ConnState::Closed,
        old(reg).wf(),
        old(fan).wf(),
        old(fan).history().len() < usize::MAX,
    ensures
        final(reg).wf(),
        final(fan).wf(),
        final(session).identity == old(session).identity,
        final(reg).model() =~= (match registers_nick(sp_envelope(text@)) {
            Some(nick) => spec_register_pairs(old(reg).model(), old(session).identity, nick),
            None => old(reg).model(),
        }),
        final(session).state == (if registers_nick(sp_envelope(text@)) is Some {
            ConnState::Registered
        } else {
            old(session).state
        }),
        (match step_publish(
            sp_envelope(text@),
            old(reg).spec_resolve(old(session).identity),
            final(reg).spec_names(),
            now as int,
        ) {
            Some(f) => published && final(fan).history() =~= old(fan).history().push(f),
            None => !published && final(fan).history() =~= old(fan).history(),
        }),
{
    match session.on_client_text(reg, text, now) {
        Some(frame) => {
            fan.publish(frame);
            true
        },
        None => false,
    }
}

/// Ends a session and publishes the fresh roster on the fanout: the
/// departed identity is gone from the registry, and every subscriber will
/// observe a `users` frame without its name.
pub fn relay_disconnect(session: &mut Session, reg: &mut Registry, fan: &mut Fanout)
    requires
        old(reg).wf(),
        old(fan).wf(),
        old(fan).history().len() < usize::MAX,
    ensures
        final(reg).wf(),
        final(fan).wf(),
        final(session).state == ConnState::Closed,
        final(reg).model() =~= spec_unregister_pairs(old(reg).model(), old(session).identity),
        !final(reg).spec_contains(old(session).identity),
        final(fan).history() =~= old(fan).history().push(
            spec_envelope_bytes(users_env(final(reg).spec_names())),
        ),
{
    let frame = session.on_disconnect(reg);
    fan.publish(frame);
}

} // verus!
