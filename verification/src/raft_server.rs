//! The server around a replication node: it applies the writes that reach
//! it, a leader's commit answers and a follower's appended entries, to the
//! local store, and routes each message: an answer for this node goes back
//! to the client that waits for it, every other message to its peer.  The
//! commands travel as JSON; the caller decodes them and hands them in.
use vstd::prelude::*;
use vstd::utf8::encode_utf8;
use crate::error::Error;
use crate::raft_node::{envelopes_view, Entry, EntryView, Envelope, EnvelopeView, Message, MessageView, Node};
use crate::storage::codec::entry_fits;
use crate::storage::engine::DiskClient;
use crate::text::text_bytes;

verus! {

/// A client command: an operation (`upsert` or `delete`), a key and, for
/// an upsert, a value.
#[derive(Debug, Clone)]
pub struct Command {
    pub op: String,
    pub key: String,
    pub value: Option<String>,
}

pub struct CommandView {
    pub op: Seq<char>,
    pub key: Seq<char>,
    pub value: Option<Seq<char>>,
}

impl View for Command {
    type V = CommandView;

    open spec fn view(&self) -> CommandView {
        CommandView {
            op: self.op@,
            key: self.key@,
            value: match self.value {
                Some(v) => Some(v@),
                None => None,
            },
        }
    }
}

/// What the server passes on: an answer to the client waiting under `id`,
/// or a message for a peer.
pub enum Delivery {
    Respond { id: u64, response: Result<Vec<u8>, Error> },
    Forward(Envelope),
}

pub enum DeliveryView {
    Respond { id: u64, response: Result<Seq<u8>, Error> },
    Forward(EnvelopeView),
}

impl View for Delivery {
    type V = DeliveryView;

    open spec fn view(&self) -> DeliveryView {
        match self {
            Delivery::Respond { id, response } => DeliveryView::Respond {
                id: *id,
                response: match response {
                    Ok(v) => Ok(v@),
                    Err(e) => Err(*e),
                },
            },
            Delivery::Forward(e) => DeliveryView::Forward(e@),
        }
    }
}

/// A write to the store.
pub enum WriteOp {
    Put(Seq<u8>, Seq<u8>),
    Remove(Seq<u8>),
}

/// The decoded command at position `j`, if any.
pub open spec fn cmd_at(cs: Seq<Option<CommandView>>, j: int) -> Option<CommandView> {
    if 0 <= j < cs.len() {
        cs[j]
    } else {
        None
    }
}

/// The decoded commands of the envelope at position `i`.
pub open spec fn cmds_at(css: Seq<Seq<Option<CommandView>>>, i: int) -> Seq<Option<CommandView>> {
    if 0 <= i < css.len() {
        css[i]
    } else {
        Seq::empty()
    }
}

/// The writes of an append's entries from position `j` on, and whether an
/// entry whose command has no value stops the handling there.
pub open spec fn append_writes(entries: Seq<EntryView>, cs: Seq<Option<CommandView>>, j: int) -> (Seq<WriteOp>, bool)
    decreases entries.len() - j,
{
    if j < 0 || j >= entries.len() {
        (Seq::empty(), false)
    } else if entries[j].command is Some && cmd_at(cs, j) is Some {
        let c = cmd_at(cs, j)->Some_0;
        match c.value {
            None => (Seq::empty(), true),
            Some(v) => {
                let rest = append_writes(entries, cs, j + 1);
                (seq![WriteOp::Put(encode_utf8(c.key), encode_utf8(v))] + rest.0, rest.1)
            },
        }
    } else {
        append_writes(entries, cs, j + 1)
    }
}

/// The writes an envelope brings, and whether it stops the handling: a
/// leader's answer applies its command (an upsert without a value stops),
/// a follower applies every appended command that carries a value (one
/// without stops).
#[verifier::opaque]
pub open spec fn envelope_writes(env: EnvelopeView, cs: Seq<Option<CommandView>>) -> (Seq<WriteOp>, bool) {
    match env.message {
        MessageView::ClientResponse { response: Ok(_), .. } => answer_writes(cs),
        MessageView::Append { entries, .. } => append_writes(entries, cs, 0),
        _ => (Seq::empty(), false),
    }
}

/// The writes of a leader's answer: an upsert writes its value (without
/// one it stops the handling), a delete removes its key, other
/// operations do nothing.
pub open spec fn answer_writes(cs: Seq<Option<CommandView>>) -> (Seq<WriteOp>, bool) {
    match cmd_at(cs, 0) {
        Some(c) => if c.op == "upsert"@ {
            match c.value {
                None => (Seq::empty(), true),
                Some(v) => (seq![WriteOp::Put(encode_utf8(c.key), encode_utf8(v))], false),
            }
        } else if c.op == "delete"@ {
            (seq![WriteOp::Remove(encode_utf8(c.key))], false)
        } else {
            (Seq::empty(), false)
        },
        None => (Seq::empty(), false),
    }
}

/// Where an envelope goes: an answer for this node to its client, other
/// messages for this node nowhere, the rest to their peer.
#[verifier::opaque]
pub open spec fn route(env: EnvelopeView, id: u64) -> Seq<DeliveryView> {
    if env.to == id {
        match env.message {
            MessageView::ClientResponse { id: rid, response } => seq![DeliveryView::Respond { id: rid, response }],
            _ => Seq::empty(),
        }
    } else {
        seq![DeliveryView::Forward(env)]
    }
}

/// Every envelope addressed to another node is forwarded to it as it is,
/// whatever its message; of the envelopes addressed to this node only the
/// answers reach a client.
pub proof fn law_route_forwards_others(env: EnvelopeView, id: u64)
    ensures
        env.to != id ==> route(env, id) == seq![DeliveryView::Forward(env)],
        env.to == id ==> match env.message {
            MessageView::ClientResponse { id: rid, response } => route(env, id) == seq![
                DeliveryView::Respond { id: rid, response },
            ],
            _ => route(env, id).len() == 0,
        },
{
    reveal(route);
}

/// The writes and the deliveries of the envelopes from position `i` on,
/// handled in order until one stops the handling.
#[verifier::opaque]
pub open spec fn plan_from(envs: Seq<EnvelopeView>, css: Seq<Seq<Option<CommandView>>>, id: u64, i: int) -> (Seq<WriteOp>, Seq<DeliveryView>)
    decreases envs.len() - i,
{
    if i < 0 || i >= envs.len() {
        (Seq::empty(), Seq::empty())
    } else {
        let (w, stop) = envelope_writes(envs[i], cmds_at(css, i));
        if stop {
            (w, Seq::empty())
        } else {
            let rest = plan_from(envs, css, id, i + 1);
            (w + rest.0, route(envs[i], id) + rest.1)
        }
    }
}

/// The writes and the deliveries of a list of envelopes.
pub open spec fn plan(envs: Seq<EnvelopeView>, css: Seq<Seq<Option<CommandView>>>, id: u64) -> (Seq<WriteOp>, Seq<DeliveryView>) {
    plan_from(envs, css, id, 0)
}

/// The write fits the store's record format.
pub open spec fn write_fits(w: WriteOp) -> bool {
    match w {
        WriteOp::Put(k, v) => entry_fits(k, Some(v)),
        WriteOp::Remove(k) => entry_fits(k, None),
    }
}

/// What one write makes of the store.
#[verifier::opaque]
pub open spec fn write_step(before: DiskClient, w: WriteOp, after: DiskClient) -> bool {
    match w {
        WriteOp::Put(k, v) => DiskClient::set_spec(before, after, k, v),
        WriteOp::Remove(k) => DiskClient::delete_spec(before, after, k),
    }
}

/// The store goes from `before` to `after` by the writes, in order.
pub open spec fn writes_applied(before: DiskClient, ws: Seq<WriteOp>, after: DiskClient) -> bool {
    exists|states: Seq<DiskClient>| {
        &&& states.len() == ws.len() + 1
        &&& states[0] == before
        &&& states.last() == after
        &&& forall|i: int| 0 <= i < ws.len() ==> write_step(#[trigger] states[i], ws[i], states[i + 1])
    }
}

/// The views of a list of decoded commands.
pub open spec fn cmd_views(v: Seq<Option<Command>>) -> Seq<Option<CommandView>> {
    v.map_values(
        |c: Option<Command>|
            match c {
                Some(c) => Some(c@),
                None => None,
            },
    )
}

/// The views of the decoded commands of each envelope.
pub open spec fn cmds_view(v: Seq<Vec<Option<Command>>>) -> Seq<Seq<Option<CommandView>>> {
    v.map_values(|cs: Vec<Option<Command>>| cmd_views(cs@))
}

/// The views of a list of deliveries.
pub open spec fn deliveries_view(v: Seq<Delivery>) -> Seq<DeliveryView> {
    v.map_values(|d: Delivery| d@)
}

/// One step of a plan.
proof fn lemma_plan_step(all: Seq<EnvelopeView>, css: Seq<Seq<Option<CommandView>>>, id: u64, i: int)
    requires
        0 <= i < all.len(),
    ensures
        plan_from(all, css, id, i) == (if envelope_writes(all[i], cmds_at(css, i)).1 {
            (envelope_writes(all[i], cmds_at(css, i)).0, Seq::<DeliveryView>::empty())
        } else {
            (
                envelope_writes(all[i], cmds_at(css, i)).0 + plan_from(all, css, id, i + 1).0,
                route(all[i], id) + plan_from(all, css, id, i + 1).1,
            )
        }),
{
    reveal(plan_from);
}

/// A plan from past the end is empty.
proof fn lemma_plan_end(all: Seq<EnvelopeView>, css: Seq<Seq<Option<CommandView>>>, id: u64)
    ensures
        plan_from(all, css, id, all.len() as int) == (Seq::<WriteOp>::empty(), Seq::<DeliveryView>::empty()),
{
    reveal(plan_from);
}

/// No writes leave the store as it is.
pub proof fn lemma_applied_empty(s: DiskClient)
    ensures
        writes_applied(s, Seq::empty(), s),
{
    let states = seq![s];
    assert(states.last() == s);
}

/// One more write extends a run of writes.
pub proof fn lemma_applied_push(a: DiskClient, ws: Seq<WriteOp>, b: DiskClient, w: WriteOp, c: DiskClient)
    requires
        writes_applied(a, ws, b),
        write_step(b, w, c),
    ensures
        writes_applied(a, ws.push(w), c),
{
    let states = choose|states: Seq<DiskClient>| {
        &&& states.len() == ws.len() + 1
        &&& states[0] == a
        &&& states.last() == b
        &&& forall|i: int| 0 <= i < ws.len() ==> write_step(#[trigger] states[i], ws[i], states[i + 1])
    };
    let st = states.push(c);
    let ws2 = ws.push(w);
    assert forall|i: int| 0 <= i < ws2.len() implies write_step(#[trigger] st[i], ws2[i], st[i + 1]) by {
        if i < ws.len() {
            assert(st[i] == states[i] && st[i + 1] == states[i + 1] && ws2[i] == ws[i]);
        }
    }
    assert(st.len() == ws2.len() + 1 && st[0] == a && st.last() == c);
}

/// Two runs of writes make one.
pub proof fn lemma_applied_concat(a: DiskClient, w1: Seq<WriteOp>, b: DiskClient, w2: Seq<WriteOp>, c: DiskClient)
    requires
        writes_applied(a, w1, b),
        writes_applied(b, w2, c),
    ensures
        writes_applied(a, w1 + w2, c),
    decreases w2.len(),
{
    if w2.len() == 0 {
        let s2 = choose|states: Seq<DiskClient>| {
            &&& states.len() == w2.len() + 1
            &&& states[0] == b
            &&& states.last() == c
            &&& forall|i: int| 0 <= i < w2.len() ==> write_step(#[trigger] states[i], w2[i], states[i + 1])
        };
        assert(b == c);
        assert(w1 + w2 =~= w1);
    } else {
        let s2 = choose|states: Seq<DiskClient>| {
            &&& states.len() == w2.len() + 1
            &&& states[0] == b
            &&& states.last() == c
            &&& forall|i: int| 0 <= i < w2.len() ==> write_step(#[trigger] states[i], w2[i], states[i + 1])
        };
        let m = s2[w2.len() - 1];
        let pre = w2.drop_last();
        let sp = s2.drop_last();
        assert forall|i: int| 0 <= i < pre.len() implies write_step(#[trigger] sp[i], pre[i], sp[i + 1]) by {
            assert(sp[i] == s2[i] && sp[i + 1] == s2[i + 1] && pre[i] == w2[i]);
        }
        assert(sp.len() == pre.len() + 1 && sp[0] == b && sp.last() == m);
        lemma_applied_concat(a, w1, b, pre, m);
        assert(write_step(s2[w2.len() - 1], w2[w2.len() - 1], s2[w2.len() as int]));
        lemma_applied_push(a, w1 + pre, m, w2.last(), c);
        assert((w1 + pre).push(w2.last()) =~= w1 + w2);
    }
}

/// Applies a write.
fn apply_write(storage: &mut DiskClient, w_key: &Vec<u8>, w_value: Option<&Vec<u8>>)
    requires
        old(storage).wf(),
        entry_fits(w_key@, match w_value { Some(v) => Some(v@), None => None }),
    ensures
        final(storage).wf(),
        write_step(*old(storage), match w_value {
            Some(v) => WriteOp::Put(w_key@, v@),
            None => WriteOp::Remove(w_key@),
        }, *final(storage)),
{
    reveal(write_step);
    match w_value {
        Some(v) => {
            let _ = storage.set(w_key.clone(), v.clone());
        },
        None => {
            let _ = storage.delete(w_key.clone());
        },
    }
}

/// The views of a list of entries.
pub open spec fn entries_view(v: Seq<Entry>) -> Seq<EntryView> {
    v.map_values(|e: Entry| e@)
}

/// Applies the commands of appended entries; tells whether one without a
/// value stopped the handling.
fn apply_append(storage: &mut DiskClient, entries: &Vec<Entry>, cmds: &Vec<Option<Command>>) -> (stop: bool)
    requires
        old(storage).wf(),
        forall|t: int| 0 <= t < append_writes(entries_view(entries@), cmd_views(cmds@), 0).0.len() ==> write_fits(
            #[trigger] append_writes(entries_view(entries@), cmd_views(cmds@), 0).0[t],
        ),
    ensures
        final(storage).wf(),
        stop == append_writes(entries_view(entries@), cmd_views(cmds@), 0).1,
        writes_applied(*old(storage), append_writes(entries_view(entries@), cmd_views(cmds@), 0).0, *final(storage)),
{
    let ghost ents = entries_view(entries@);
    let ghost cv = cmd_views(cmds@);
    let ghost aw0 = append_writes(ents, cv, 0);
    let ghost s0 = *storage;
    let ghost mut done: Seq<WriteOp> = Seq::empty();
    proof {
        lemma_applied_empty(s0);
        assert(aw0.0 =~= done + append_writes(ents, cv, 0).0);
    }
    let mut j: usize = 0;
    while j < entries.len()
        invariant
            j <= entries@.len(),
            ents == entries_view(entries@),
            cv == cmd_views(cmds@),
            aw0 == append_writes(ents, cv, 0),
            s0 == *old(storage),
            aw0.0 == done + append_writes(ents, cv, j as int).0,
            aw0.1 == append_writes(ents, cv, j as int).1,
            forall|t: int| 0 <= t < aw0.0.len() ==> write_fits(#[trigger] aw0.0[t]),
            storage.wf(),
            writes_applied(s0, done, *storage),
        decreases entries.len() - j,
    {
        let ghost aw = append_writes(ents, cv, j as int);
        let ghost aw_next = append_writes(ents, cv, j + 1);
        assert(ents[j as int] == entries@[j as int]@);
        if entries[j].command.is_some() && j < cmds.len() && cmds[j].is_some() {
            let cmd = cmds[j].as_ref().unwrap();
            assert(cmd_at(cv, j as int) == Some(cmd@));
            match &cmd.value {
                None => {
                    proof {
                        assert(aw0.0 =~= done);
                    }
                    return true;
                },
                Some(v) => {
                    let k = text_bytes(cmd.key.as_str());
                    let vb = text_bytes(v.as_str());
                    proof {
                        assert(aw.0 =~= seq![WriteOp::Put(k@, vb@)] + aw_next.0);
                        assert(aw0.0 =~= done.push(WriteOp::Put(k@, vb@)) + aw_next.0);
                        assert(aw0.0[done.len() as int] == WriteOp::Put(k@, vb@));
                    }
                    let ghost pre = *storage;
                    apply_write(storage, &k, Some(&vb));
                    proof {
                        lemma_applied_push(s0, done, pre, WriteOp::Put(k@, vb@), *storage);
                        done = done.push(WriteOp::Put(k@, vb@));
                    }
                },
            }
        } else {
            assert(!(ents[j as int].command is Some && cmd_at(cv, j as int) is Some));
            assert(aw == aw_next);
        }
        j = j + 1;
    }
    proof {
        assert(append_writes(ents, cv, j as int).0 =~= Seq::<WriteOp>::empty());
        assert(aw0.0 =~= done);
    }
    false
}

/// Applies the command of a leader's answer; tells whether an upsert
/// without a value stopped the handling.
fn apply_answer(storage: &mut DiskClient, cmds: &Vec<Option<Command>>) -> (stop: bool)
    requires
        old(storage).wf(),
        forall|t: int| 0 <= t < answer_writes(cmd_views(cmds@)).0.len() ==> write_fits(
            #[trigger] answer_writes(cmd_views(cmds@)).0[t],
        ),
    ensures
        final(storage).wf(),
        stop == answer_writes(cmd_views(cmds@)).1,
        writes_applied(*old(storage), answer_writes(cmd_views(cmds@)).0, *final(storage)),
{
    let ghost s0 = *storage;
    proof {
        lemma_applied_empty(s0);
    }
    if cmds.len() == 0 {
        return false;
    }
    let cmd = match &cmds[0] {
        Some(c) => c,
        None => {
            return false;
        },
    };
    assert(cmd_at(cmd_views(cmds@), 0) == Some(cmd@));
    let upsert = String::from_str("upsert");
    let delete = String::from_str("delete");
    if cmd.op == upsert {
        match &cmd.value {
            None => true,
            Some(v) => {
                let k = text_bytes(cmd.key.as_str());
                let vb = text_bytes(v.as_str());
                assert(answer_writes(cmd_views(cmds@)).0 =~= seq![WriteOp::Put(k@, vb@)]);
                assert(write_fits(answer_writes(cmd_views(cmds@)).0[0]));
                apply_write(storage, &k, Some(&vb));
                proof {
                    lemma_applied_push(s0, Seq::empty(), s0, WriteOp::Put(k@, vb@), *storage);
                    assert(Seq::<WriteOp>::empty().push(WriteOp::Put(k@, vb@)) =~= seq![WriteOp::Put(k@, vb@)]);
                }
                false
            },
        }
    } else if cmd.op == delete {
        let k = text_bytes(cmd.key.as_str());
        assert(answer_writes(cmd_views(cmds@)).0 =~= seq![WriteOp::Remove(k@)]);
        assert(write_fits(answer_writes(cmd_views(cmds@)).0[0]));
        apply_write(storage, &k, None);
        proof {
            lemma_applied_push(s0, Seq::empty(), s0, WriteOp::Remove(k@), *storage);
            assert(Seq::<WriteOp>::empty().push(WriteOp::Remove(k@)) =~= seq![WriteOp::Remove(k@)]);
        }
        false
    } else {
        false
    }
}

/// A node with the store it writes to.
pub struct Server {
    pub node: Node,
    pub storage: DiskClient,
}

impl Server {
    /// Handles one envelope: applies its writes, then, unless it stopped
    /// the handling, routes it.
    fn handle_one(&mut self, env: Envelope, cmds: &Vec<Option<Command>>) -> (r: (bool, Vec<Delivery>))
        requires
            old(self).storage.wf(),
            forall|t: int| 0 <= t < envelope_writes(env@, cmd_views(cmds@)).0.len() ==> write_fits(
                #[trigger] envelope_writes(env@, cmd_views(cmds@)).0[t],
            ),
        ensures
            final(self).node == old(self).node,
            final(self).storage.wf(),
            r.0 == envelope_writes(env@, cmd_views(cmds@)).1,
            writes_applied(old(self).storage, envelope_writes(env@, cmd_views(cmds@)).0, final(self).storage),
            r.0 ==> r.1@.len() == 0,
            !r.0 ==> deliveries_view(r.1@) == route(env@, old(self).node@.id),
    {
        reveal(envelope_writes);
        reveal(route);
        let ghost ev = env@;
        let stop = match &env.message {
            Message::ClientResponse { response: Ok(_), .. } => {
                assert(envelope_writes(ev, cmd_views(cmds@)) == answer_writes(cmd_views(cmds@)));
                apply_answer(&mut self.storage, cmds)
            },
            Message::Append { entries, .. } => {
                assert(ev.message->Append_entries =~= entries_view(entries@));
                assert(envelope_writes(ev, cmd_views(cmds@)) == append_writes(entries_view(entries@), cmd_views(cmds@), 0));
                apply_append(&mut self.storage, entries, cmds)
            },
            _ => {
                proof {
                    lemma_applied_empty(self.storage);
                    assert(envelope_writes(ev, cmd_views(cmds@)).0 =~= Seq::<WriteOp>::empty());
                }
                false
            },
        };
        let mut out: Vec<Delivery> = Vec::new();
        if stop {
            return (true, out);
        }
        if env.to == self.node.node_id() {
            if let Message::ClientResponse { id: rid, response } = env.message {
                out.push(Delivery::Respond { id: rid, response });
                assert(deliveries_view(out@) =~= route(ev, self.node@.id));
            } else {
                assert(deliveries_view(out@) =~= route(ev, self.node@.id));
            }
        } else {
            out.push(Delivery::Forward(env));
            assert(deliveries_view(out@) =~= route(ev, self.node@.id));
        }
        (false, out)
    }

    /// Handles the envelopes that come out of the node or in from peers:
    /// applies their writes to the store, then routes them; a command
    /// that should carry a value and does not ends the handling.
    /// `commands[i]` holds the decoded commands of envelope `i`: that of
    /// an answer's payload, or one per appended entry (`None` where there
    /// is none or it does not decode).
    pub fn handle_envelopes(&mut self, envelopes: Vec<Envelope>, commands: &Vec<Vec<Option<Command>>>) -> (r: Vec<Delivery>)
        requires
            old(self).storage.wf(),
            forall|i: int|
                0 <= i < plan(envelopes_view(envelopes@), cmds_view(commands@), old(self).node@.id).0.len() ==> write_fits(
                    #[trigger] plan(envelopes_view(envelopes@), cmds_view(commands@), old(self).node@.id).0[i],
                ),
        ensures
            final(self).node == old(self).node,
            final(self).storage.wf(),
            writes_applied(old(self).storage, plan(envelopes_view(envelopes@), cmds_view(commands@), old(self).node@.id).0, final(self).storage),
            deliveries_view(r@) == plan(envelopes_view(envelopes@), cmds_view(commands@), old(self).node@.id).1,
    {
        let ghost all = envelopes_view(envelopes@);
        let ghost css = cmds_view(commands@);
        let ghost id = self.node@.id;
        let ghost s0 = self.storage;
        let ghost total = plan(all, css, id);
        let mut envs = envelopes;
        let mut out: Vec<Delivery> = Vec::new();
        let mut i: usize = 0;
        let n = envs.len();
        let ghost mut done_w: Seq<WriteOp> = Seq::empty();
        let no_cmds: Vec<Option<Command>> = Vec::new();
        proof {
            lemma_applied_empty(s0);
            assert(total.0 =~= done_w + plan_from(all, css, id, 0).0);
            assert(total.1 =~= deliveries_view(out@) + plan_from(all, css, id, 0).1);
            assert(envelopes_view(envs@) =~= all.skip(0));
        }
        while i < n
            invariant
                i <= n == all.len(),
                all == envelopes_view(envelopes@),
                envs@.len() == n - i,
                envelopes_view(envs@) == all.skip(i as int),
                css == cmds_view(commands@),
                no_cmds@.len() == 0,
                id == self.node@.id,
                self.node == old(self).node,
                total == plan(all, css, id),
                total.0 == done_w + plan_from(all, css, id, i as int).0,
                total.1 == deliveries_view(out@) + plan_from(all, css, id, i as int).1,
                forall|t: int| 0 <= t < total.0.len() ==> write_fits(#[trigger] total.0[t]),
                self.storage.wf(),
                s0 == old(self).storage,
                writes_applied(s0, done_w, self.storage),
            decreases n - i,
        {
            let ghost old_envs = envs@;
            let env = envs.remove(0);
            let ghost ev = env@;
            proof {
                assert(envelopes_view(old_envs)[0] == ev);
                assert(all.skip(i as int)[0] == all[i as int]);
                assert(envs@ =~= old_envs.drop_first());
                assert forall|t: int| 0 <= t < envs@.len() implies envelopes_view(envs@)[t] == all.skip(i + 1)[t] by {
                    assert(envelopes_view(old_envs)[t + 1] == all.skip(i as int)[t + 1]);
                }
                assert(envelopes_view(envs@) =~= all.skip(i + 1));
            }
            let cmds: &Vec<Option<Command>> = if i < commands.len() {
                &commands[i]
            } else {
                &no_cmds
            };
            let ghost cs = cmds_at(css, i as int);
            assert(cmd_views(cmds@) =~= cs);
            let ghost ew = envelope_writes(ev, cs);
            let ghost rest = plan_from(all, css, id, i + 1);
            proof {
                lemma_plan_step(all, css, id, i as int);
            }
            let ghost pre = self.storage;
            proof {
                assert forall|t: int| 0 <= t < ew.0.len() implies write_fits(#[trigger] ew.0[t]) by {
                    assert(total.0[done_w.len() + t] == ew.0[t]);
                }
            }
            let (stop, mut ds) = self.handle_one(env, cmds);
            proof {
                lemma_applied_concat(s0, done_w, pre, ew.0, self.storage);
                done_w = done_w + ew.0;
            }
            if stop {
                proof {
                    assert(total.0 =~= done_w);
                    assert(total.1 =~= deliveries_view(out@));
                }
                return out;
            }
            let ghost before_out = out@;
            out.append(&mut ds);
            proof {
                assert(total.0 =~= done_w + rest.0);
                assert(deliveries_view(out@) =~= deliveries_view(before_out) + route(ev, id));
                assert(total.1 =~= deliveries_view(out@) + rest.1);
            }
            i = i + 1;
        }
        proof {
            lemma_plan_end(all, css, id);
            assert(total.0 =~= done_w);
            assert(total.1 =~= deliveries_view(out@));
        }
        out
    }
}

} // verus!
