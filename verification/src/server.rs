//! The state the connection multiplexer keeps and the decisions it makes:
//! per-connection buffering and database selection, the pool of connection
//! tokens, routing of the cross-database commands, and the step from
//! buffered input to encoded replies. The sockets and the readiness loop
//! live outside the library and hand plain text in and out.

use vstd::prelude::*;

use crate::command::{
    spec_encode_return, spec_parse_buffer, Command, CommandModel, Return, ReturnModel,
};
use crate::db::{spec_purge, spec_run_command, spec_time_reply, DbModel, RustisDb};
use crate::value::ValueModel;

verus! {

/// The fixed capacity of the connection-token pool.
pub const MAX_CONNECTIONS: usize = 4096;

/// What the library keeps per connection: the not-yet-parsed input and the
/// index of the selected database (zero at first). The socket itself stays
/// outside the library.
pub struct ClientConnection {
    pub buf: String,
    pub db: usize,
}

impl ClientConnection {
    /// A fresh connection: an empty buffer, database zero selected.
    pub fn new() -> (r: ClientConnection)
        ensures
            r.buf@ == Seq::<char>::empty(),
            r.db == 0,
    {
        let r = ClientConnection { buf: String::new(), db: 0 };
        proof {
            assert(r.buf@ =~= Seq::<char>::empty());
        }
        r
    }
}

/// The databases and the pool of reusable connection tokens.
pub struct RustisServer {
    dbs: Vec<RustisDb>,
    client_tokens: Vec<usize>,
}

impl View for RustisServer {
    type V = Seq<DbModel>;

    closed spec fn view(&self) -> Seq<DbModel> {
        self.dbs@.map_values(|d: RustisDb| d@)
    }
}

/// What executing one command does at the server: SELECT is validated
/// against the database count and only moves the connection's index, SWAPDB
/// exchanges two database slots (visible to every connection holding either
/// index), FLUSHALL clears every database, an unrecognized frame is answered
/// with an error, and everything else runs on the selected database.
pub open spec fn spec_dispatch(dbs: Seq<DbModel>, conndb: int, cmd: CommandModel) -> (
    Seq<DbModel>,
    int,
    ReturnModel,
)
    recommends
        0 <= conndb < dbs.len(),
{
    match cmd {
        CommandModel::Select(i) => {
            if 0 <= i < dbs.len() {
                (dbs, i, ReturnModel::Okay)
            } else {
                (dbs, conndb, ReturnModel::Error("ERR db out of range"@))
            }
        },
        CommandModel::SwapDb(a, b) => {
            if 0 <= a < dbs.len() && 0 <= b < dbs.len() {
                (dbs.update(a, dbs[b]).update(b, dbs[a]), conndb, ReturnModel::Okay)
            } else {
                (dbs, conndb, ReturnModel::Error("ERR db out of range"@))
            }
        },
        CommandModel::FlushAll => (
            Seq::new(
                dbs.len(),
                |i: int| DbModel { values: Map::empty(), ttl: Map::empty() },
            ),
            conndb,
            ReturnModel::Okay,
        ),
        CommandModel::Unknown => (dbs, conndb, ReturnModel::Error("ERR unknown command"@)),
        _ => {
            let r = spec_run_command(dbs[conndb], cmd);
            (dbs.update(conndb, r.0), conndb, r.1)
        },
    }
}

/// One server step: exactly `spec_dispatch`, except that a TIME command
/// leaves all state alone and replies with some clock reading.
pub open spec fn step_rel(
    dbs: Seq<DbModel>,
    conndb: int,
    cmd: CommandModel,
    dbs2: Seq<DbModel>,
    conndb2: int,
    ret: ReturnModel,
) -> bool {
    if cmd is Time {
        dbs2 == dbs && conndb2 == conndb && spec_time_reply(ret)
    } else {
        (dbs2, conndb2, ret) == spec_dispatch(dbs, conndb, cmd)
    }
}

/// The replies' encodings, concatenated in order.
pub open spec fn encode_all(rets: Seq<ReturnModel>) -> Seq<char>
    decreases rets.len(),
{
    if rets.len() == 0 {
        Seq::empty()
    } else {
        encode_all(rets.drop_last()) + spec_encode_return(rets.last())
    }
}

/// A full trace of server steps: `states` records the databases and the
/// selected index before and after each command, and `rets` the replies.
pub open spec fn trace_ok(
    dbs: Seq<DbModel>,
    conndb: int,
    cmds: Seq<CommandModel>,
    states: Seq<(Seq<DbModel>, int)>,
    rets: Seq<ReturnModel>,
) -> bool {
    &&& states.len() == cmds.len() + 1
    &&& rets.len() == cmds.len()
    &&& states[0] == (dbs, conndb)
    &&& forall|i: int|
        0 <= i < cmds.len() ==> step_rel(
            states[i].0,
            states[i].1,
            cmds[i],
            #[trigger] states[i + 1].0,
            states[i + 1].1,
            rets[i],
        )
}

/// A run of server steps over a row of commands, in order, whose replies'
/// encodings concatenate to `out`: some trace of steps leads from the one
/// state to the other.
pub open spec fn steps_rel(
    dbs: Seq<DbModel>,
    conndb: int,
    cmds: Seq<CommandModel>,
    dbs2: Seq<DbModel>,
    conndb2: int,
    out: Seq<char>,
) -> bool {
    exists|states: Seq<(Seq<DbModel>, int)>, rets: Seq<ReturnModel>|
        {
            &&& #[trigger] trace_ok(dbs, conndb, cmds, states, rets)
            &&& states.last() == (dbs2, conndb2)
            &&& out == encode_all(rets)
        }
}

/// Every database swept of its expired keys at one instant.
pub open spec fn spec_purge_all(dbs: Seq<DbModel>, now: u64) -> Seq<DbModel> {
    dbs.map_values(|m: DbModel| spec_purge(m, now))
}

impl RustisServer {
    /// Every database is structurally sound.
    pub closed spec fn wf(&self) -> bool {
        forall|i: int| 0 <= i < self.dbs@.len() ==> (#[trigger] self.dbs@[i]).wf()
    }

    /// The pool of connection tokens not currently lent out.
    pub closed spec fn tokens(&self) -> Seq<usize> {
        self.client_tokens@
    }

    /// A fresh server: `db_count` empty databases and the full token pool,
    /// the tokens one through the capacity in order.
    #[verifier::loop_isolation(false)]
    pub fn new(db_count: usize) -> (r: RustisServer)
        requires
            db_count < usize::MAX,
        ensures
            r.wf(),
            r@.len() == db_count,
            forall|i: int|
                0 <= i < db_count ==> (#[trigger] r@[i]) == (DbModel {
                    values: Map::<Seq<char>, ValueModel>::empty(),
                    ttl: Map::<Seq<char>, u64>::empty(),
                }),
            r.tokens().len() == MAX_CONNECTIONS,
            forall|i: int| 0 <= i < MAX_CONNECTIONS ==> #[trigger] r.tokens()[i] == i + 1,
    {
        let mut dbs: Vec<RustisDb> = Vec::new();
        let mut i: usize = 0;
        while i < db_count
            invariant
                i <= db_count,
                dbs@.len() == i,
                forall|j: int| 0 <= j < i ==> (#[trigger] dbs@[j]).wf(),
                forall|j: int|
                    0 <= j < i ==> (#[trigger] dbs@[j])@ == (DbModel {
                        values: Map::<Seq<char>, ValueModel>::empty(),
                        ttl: Map::<Seq<char>, u64>::empty(),
                    }),
            decreases db_count - i,
        {
            dbs.push(RustisDb::new());
            i = i + 1;
        }
        let mut client_tokens: Vec<usize> = Vec::new();
        let mut t: usize = 1;
        while t <= MAX_CONNECTIONS
            invariant
                1 <= t <= MAX_CONNECTIONS + 1,
                client_tokens@.len() == t - 1,
                forall|j: int| 0 <= j < t - 1 ==> #[trigger] client_tokens@[j] == j + 1,
            decreases MAX_CONNECTIONS + 1 - t,
        {
            client_tokens.push(t);
            t = t + 1;
        }
        RustisServer { dbs, client_tokens }
    }

    /// How many databases are configured.
    pub fn db_count(&self) -> (r: usize)
        ensures
            r == self@.len(),
    {
        self.dbs.len()
    }

    /// Lends out the most recently returned token, or nothing when the pool
    /// is exhausted — the caller then rejects the new connection.
    pub fn get_client_token(&mut self) -> (r: Option<usize>)
        ensures
            final(self)@ == old(self)@,
            final(self).wf() == old(self).wf(),
            match r {
                Some(t) => old(self).tokens().len() > 0 && t == old(self).tokens().last()
                    && final(self).tokens() == old(self).tokens().drop_last(),
                None => old(self).tokens().len() == 0
                    && final(self).tokens() == old(self).tokens(),
            },
    {
        let r = self.client_tokens.pop();
        proof {
            if old(self).tokens().len() > 0 {
                assert(final(self).tokens() =~= old(self).tokens().drop_last());
            }
        }
        r
    }

    /// Returns a token to the pool when its connection closes.
    pub fn recycle_client_token(&mut self, token: usize)
        ensures
            final(self)@ == old(self)@,
            final(self).wf() == old(self).wf(),
            final(self).tokens() == old(self).tokens().push(token),
    {
        self.client_tokens.push(token);
    }
}

} // verus!

verus! {

use crate::parse::ParseResult;

impl RustisServer {
    /// Applies FLUSHDB to every database in sequence.
    #[verifier::loop_isolation(false)]
    fn flush_all(&mut self)
        requires
            old(self).wf(),
        ensures
            final(self).wf(),
            final(self)@ == Seq::new(
                old(self)@.len(),
                |i: int| DbModel { values: Map::empty(), ttl: Map::empty() },
            ),
    {
        let n = self.dbs.len();
        let mut i: usize = 0;
        while i < n
            invariant
                i <= n,
                self.dbs@.len() == n,
                self.wf(),
                forall|j: int|
                    0 <= j < i ==> (#[trigger] self.dbs@[j])@ == (DbModel {
                        values: Map::<Seq<char>, ValueModel>::empty(),
                        ttl: Map::<Seq<char>, u64>::empty(),
                    }),
                forall|j: int| i <= j < n ==> self.dbs@[j] == old(self).dbs@[j],
            decreases n - i,
        {
            let mut d = self.dbs.remove(i);
            d.run_command(Command::FlushDb);
            self.dbs.insert(i, d);
            proof {
                assert(forall|j: int| i < j < n ==> self.dbs@[j] == old(self).dbs@[j]);
            }
            i = i + 1;
        }
        proof {
            assert(final(self)@ =~= Seq::new(
                old(self)@.len(),
                |i: int| DbModel { values: Map::empty(), ttl: Map::empty() },
            ));
        }
    }

    /// Exchanges two database slots; every connection selecting either index
    /// sees the other database afterwards.
    fn swap_dbs(&mut self, a: usize, b: usize)
        requires
            old(self).wf(),
            a < old(self)@.len(),
            b < old(self)@.len(),
        ensures
            final(self).wf(),
            final(self)@ == old(self)@.update(a as int, old(self)@[b as int]).update(
                b as int,
                old(self)@[a as int],
            ),
    {
        if a == b {
            proof {
                assert(final(self)@ =~= old(self)@.update(a as int, old(self)@[b as int]).update(
                    b as int,
                    old(self)@[a as int],
                ));
            }
            return ;
        }
        let (lo, hi) = if a < b {
            (a, b)
        } else {
            (b, a)
        };
        let dhi = self.dbs.remove(hi);
        let dlo = self.dbs.remove(lo);
        self.dbs.insert(lo, dhi);
        self.dbs.insert(hi, dlo);
        proof {
            assert(self.dbs@ =~= old(self).dbs@.update(a as int, old(self).dbs@[b as int]).update(
                b as int,
                old(self).dbs@[a as int],
            ));
            assert(final(self)@ =~= old(self)@.update(a as int, old(self)@[b as int]).update(
                b as int,
                old(self)@[a as int],
            ));
        }
    }

    /// Sweeps every database of the keys expired by `now`.
    #[verifier::loop_isolation(false)]
    pub fn sweep(&mut self, now: u64)
        requires
            old(self).wf(),
        ensures
            final(self).wf(),
            final(self)@ == spec_purge_all(old(self)@, now),
    {
        let n = self.dbs.len();
        let mut i: usize = 0;
        while i < n
            invariant
                i <= n,
                self.dbs@.len() == n,
                self.wf(),
                forall|j: int|
                    0 <= j < i ==> (#[trigger] self.dbs@[j])@ == spec_purge(
                        old(self).dbs@[j]@,
                        now,
                    ),
                forall|j: int| i <= j < n ==> self.dbs@[j] == old(self).dbs@[j],
            decreases n - i,
        {
            let mut d = self.dbs.remove(i);
            d.purge_expired(now);
            self.dbs.insert(i, d);
            proof {
                assert(forall|j: int| i < j < n ==> self.dbs@[j] == old(self).dbs@[j]);
            }
            i = i + 1;
        }
        proof {
            assert(final(self)@ =~= spec_purge_all(old(self)@, now));
        }
    }

    /// Executes one command at the server level: SELECT and SWAPDB are
    /// validated against the database count, FLUSHALL clears every database,
    /// an unrecognized frame is answered with an error, and everything else
    /// runs on the connection's selected database.
    pub fn dispatch(&mut self, conn: &mut ClientConnection, cmd: Command) -> (r: Return)
        requires
            old(self).wf(),
            old(conn).db < old(self)@.len(),
        ensures
            final(self).wf(),
            final(self)@.len() == old(self)@.len(),
            final(conn).db < final(self)@.len(),
            final(conn).buf == old(conn).buf,
            step_rel(
                old(self)@,
                old(conn).db as int,
                cmd@,
                final(self)@,
                final(conn).db as int,
                r@,
            ),
    {
        match cmd {
            Command::Select(i) => {
                if i < self.dbs.len() {
                    conn.db = i;
                    Return::Okay
                } else {
                    Return::Error(String::from_str("ERR db out of range"))
                }
            },
            Command::SwapDb(a, b) => {
                if a < self.dbs.len() && b < self.dbs.len() {
                    self.swap_dbs(a, b);
                    Return::Okay
                } else {
                    Return::Error(String::from_str("ERR db out of range"))
                }
            },
            Command::FlushAll => {
                self.flush_all();
                Return::Okay
            },
            Command::Unknown => Return::Error(String::from_str("ERR unknown command")),
            _ => {
                let idx = conn.db;
                let mut d = self.dbs.remove(idx);
                let ghost dm0 = d@;
                let r = d.run_command(cmd);
                self.dbs.insert(idx, d);
                proof {
                    assert(self.dbs@ =~= old(self).dbs@.update(idx as int, d));
                    assert(final(self)@ =~= old(self)@.update(idx as int, d@));
                    if cmd@ is Time {
                        assert(d@ == dm0);
                        assert(final(self)@ =~= old(self)@);
                    }
                }
                r
            },
        }
    }

    /// One readable event: appends the input to the connection's buffer,
    /// sweeps expired keys as of `now`, parses every complete frame, runs
    /// each decoded command in arrival order against the connection's view
    /// of the databases, and trims the buffer by exactly the characters the
    /// complete frames span. The replies, encoded in command order, are the
    /// bytes to write back on the same connection.
    #[verifier::loop_isolation(false)]
    pub fn handle_input(&mut self, conn: &mut ClientConnection, input: &str, now: u64) -> (out:
        String)
        requires
            old(self).wf(),
            old(conn).db < old(self)@.len(),
        ensures
            final(self).wf(),
            final(self)@.len() == old(self)@.len(),
            final(conn).db < final(self)@.len(),
            final(conn).buf@ == (old(conn).buf@ + input@).skip(
                spec_parse_buffer(old(conn).buf@ + input@).1,
            ),
            steps_rel(
                spec_purge_all(old(self)@, now),
                old(conn).db as int,
                spec_parse_buffer(old(conn).buf@ + input@).0,
                final(self)@,
                final(conn).db as int,
                out@,
            ),
    {
        conn.buf.append(input);
        let ghost full = conn.buf@;
        self.sweep(now);
        let ghost dbs0 = self@;
        let ghost db0 = conn.db as int;
        let pr = Command::parse(conn.buf.as_str());
        let consumed = pr.0;
        let mut cmds = pr.1;
        let ghost cmodels = spec_parse_buffer(full).0;
        let ghost all = cmds@;
        let blen = conn.buf.as_str().unicode_len();
        let trimmed = String::from_str(conn.buf.as_str().substring_char(consumed, blen));
        conn.buf = trimmed;
        proof {
            assert(conn.buf@ =~= full.skip(spec_parse_buffer(full).1));
        }
        let mut out = String::new();
        let ghost mut states: Seq<(Seq<DbModel>, int)> = seq![(dbs0, db0)];
        let ghost mut rets: Seq<ReturnModel> = Seq::empty();
        proof {
            assert(cmodels =~= all.map_values(|c: Command| c@));
            assert(cmodels.subrange(0, 0) =~= Seq::<CommandModel>::empty());
            assert(trace_ok(dbs0, db0, cmodels.subrange(0, 0), states, rets));
            assert(out@ =~= encode_all(rets));
        }
        while cmds.len() > 0
            invariant
                cmds@.len() <= all.len(),
                cmds@ =~= all.skip(all.len() - cmds@.len()),
                states.len() == all.len() - cmds@.len() + 1,
                rets.len() == all.len() - cmds@.len(),
                trace_ok(
                    dbs0,
                    db0,
                    cmodels.subrange(0, all.len() - cmds@.len()),
                    states,
                    rets,
                ),
                states.last() == (self@, conn.db as int),
                out@ == encode_all(rets),
                self.wf(),
                self@.len() == old(self)@.len(),
                conn.db < self@.len(),
                conn.buf@ == full.skip(spec_parse_buffer(full).1),
            decreases cmds@.len(),
        {
            let ghost done = all.len() - cmds@.len();
            let c = cmds.remove(0);
            proof {
                assert(c == all[done]);
                assert(c@ == cmodels[done]);
                assert(cmds@ =~= all.skip(done + 1));
            }
            let r = self.dispatch(conn, c);
            r.encode_push(&mut out);
            proof {
                let states0 = states;
                let rets0 = rets;
                states = states.push((self@, conn.db as int));
                rets = rets.push(r@);
                assert(rets.drop_last() =~= rets0);
                assert(out@ =~= encode_all(rets));
                let pre = cmodels.subrange(0, done + 1);
                assert(trace_ok(dbs0, db0, pre, states, rets)) by {
                    assert forall|i: int| 0 <= i < pre.len() implies step_rel(
                        states[i].0,
                        states[i].1,
                        pre[i],
                        #[trigger] states[i + 1].0,
                        states[i + 1].1,
                        rets[i],
                    ) by {
                        if i < done {
                            assert(states[i] == states0[i]);
                            assert(states[i + 1] == states0[i + 1]);
                            assert(rets[i] == rets0[i]);
                            assert(pre[i] == cmodels.subrange(0, done)[i]);
                            assert(step_rel(
                                states0[i].0,
                                states0[i].1,
                                cmodels.subrange(0, done)[i],
                                states0[i + 1].0,
                                states0[i + 1].1,
                                rets0[i],
                            ));
                        } else {
                            assert(states[done] == states0.last());
                            assert(pre[done] == cmodels[done]);
                        }
                    }
                }
            }
        }
        proof {
            assert(cmodels.subrange(0, all.len() as int) =~= cmodels);
            assert(trace_ok(dbs0, db0, cmodels, states, rets));
            assert(steps_rel(dbs0, db0, cmodels, self@, conn.db as int, out@));
        }
        out
    }
}

} // verus!

verus! {

use crate::db::{i64_clamp};

/// Selecting an index at or beyond the configured database count yields the
/// range error and leaves the connection's selected database unchanged.
pub proof fn lemma_select_out_of_range(dbs: Seq<DbModel>, conndb: int, i: int)
    requires
        0 <= conndb < dbs.len(),
        i >= dbs.len(),
    ensures
        spec_dispatch(dbs, conndb, CommandModel::Select(i)) == (
            dbs,
            conndb,
            ReturnModel::Error("ERR db out of range"@),
        ),
{
}

/// After FLUSHALL, DBSIZE on every database reports zero.
pub proof fn lemma_flushall_empties_all(dbs: Seq<DbModel>, conndb: int, j: int)
    requires
        0 <= conndb < dbs.len(),
        0 <= j < dbs.len(),
    ensures
        ({
            let after = spec_dispatch(dbs, conndb, CommandModel::FlushAll).0;
            &&& after.len() == dbs.len()
            &&& spec_run_command(after[j], CommandModel::DbSize).1 == ReturnModel::ValueReturn(
                ValueModel::IntValue(0),
            )
        }),
{
    let after = spec_dispatch(dbs, conndb, CommandModel::FlushAll).0;
    assert(after[j].values =~= Map::<Seq<char>, ValueModel>::empty());
    assert(Map::<Seq<char>, ValueModel>::empty().dom() =~= Set::<Seq<char>>::empty());
    assert(Map::<Seq<char>, ValueModel>::empty().len() == 0);
    assert(i64_clamp(0) == 0);
}

} // verus!
