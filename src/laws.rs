use vstd::prelude::*;

use crate::world::{announced, Phase, ProxySlot, Signal, WorldView};

verus! {

// ---- node links

/// Delivering `NodeConnected(n)` twice leaves exactly one link for `n`: the
/// first delivery registers it, the second reconnects it and registers nothing.
pub proof fn reconnection_is_idempotent(w: WorldView, n: Seq<char>)
    ensures
        w.connect(n).nodes.contains(n),
        !w.connect(n).spawns(n),
        w.connect(n).connect(n) == w.connect(n),
{
    assert(w.connect(n).connect(n) =~= w.connect(n));
}

// ---- supported types

/// The coordinator after each announcement `(node, types)` of `anns`, in order.
pub open spec fn announce_all(w: WorldView, anns: Seq<(Seq<char>, Seq<Seq<char>>)>) -> WorldView
    decreases anns.len(),
{
    if anns.len() == 0 {
        w
    } else {
        announce_all(w, anns.drop_last()).announce(anns.last().0, anns.last().1)
    }
}

/// Every `(type id, node)` pair that some announcement of `anns` declares.
pub open spec fn announced_all(anns: Seq<(Seq<char>, Seq<Seq<char>>)>) -> Set<(Seq<char>, Seq<char>)> {
    Set::new(
        |p: (Seq<char>, Seq<char>)|
            exists|i: int| 0 <= i < anns.len() && #[trigger] announced(anns[i].0, anns[i].1).contains(p),
    )
}

/// After any sequence of announcements, the supported pairs are those held
/// before together with every announced pair, and nothing else changes.
pub proof fn support_is_union(w: WorldView, anns: Seq<(Seq<char>, Seq<Seq<char>>)>)
    ensures
        announce_all(w, anns) == (WorldView { types: w.types.union(announced_all(anns)), ..w }),
    decreases anns.len(),
{
    if anns.len() == 0 {
        assert(announce_all(w, anns) =~= (WorldView { types: w.types.union(announced_all(anns)), ..w }));
    } else {
        let init = anns.drop_last();
        support_is_union(w, init);
        let last = anns.last();
        assert forall|p: (Seq<char>, Seq<char>)| #[trigger] announced_all(anns).contains(p) == (
        announced_all(init).contains(p) || announced(last.0, last.1).contains(p)) by {
            if announced_all(anns).contains(p) {
                let i = choose|i: int|
                    0 <= i < anns.len() && #[trigger] announced(anns[i].0, anns[i].1).contains(p);
                if i < anns.len() - 1 {
                    assert(init[i] == anns[i]);
                }
            }
            if announced_all(init).contains(p) {
                let i = choose|i: int|
                    0 <= i < init.len() && #[trigger] announced(init[i].0, init[i].1).contains(p);
                assert(init[i] == anns[i]);
            }
            if announced(last.0, last.1).contains(p) {
                let k = anns.len() - 1;
                assert(announced(anns[k].0, anns[k].1).contains(p));
            }
        }
        assert(announce_all(w, anns) =~= (WorldView { types: w.types.union(announced_all(anns)), ..w }));
    }
}

/// Announcements converge: two sequences that hold the same announcements,
/// in any order and any number of times, leave the same supported pairs.
pub proof fn support_ignores_order(
    w: WorldView,
    a: Seq<(Seq<char>, Seq<Seq<char>>)>,
    b: Seq<(Seq<char>, Seq<Seq<char>>)>,
)
    requires
        a.to_set() == b.to_set(),
    ensures
        announce_all(w, a) == announce_all(w, b),
{
    support_is_union(w, a);
    support_is_union(w, b);
    assert forall|p: (Seq<char>, Seq<char>)| #[trigger] announced_all(a).contains(p) implies announced_all(
        b,
    ).contains(p) by {
        let i = choose|i: int| 0 <= i < a.len() && #[trigger] announced(a[i].0, a[i].1).contains(p);
        assert(a.to_set().contains(a[i]));
        let j = choose|j: int| 0 <= j < b.len() && b[j] == a[i];
        assert(announced(b[j].0, b[j].1).contains(p));
    }
    assert forall|p: (Seq<char>, Seq<char>)| #[trigger] announced_all(b).contains(p) implies announced_all(
        a,
    ).contains(p) by {
        let i = choose|i: int| 0 <= i < b.len() && #[trigger] announced(b[i].0, b[i].1).contains(p);
        assert(b.to_set().contains(b[i]));
        let j = choose|j: int| 0 <= j < a.len() && a[j] == b[i];
        assert(announced(a[j].0, a[j].1).contains(p));
    }
    assert(announced_all(a) =~= announced_all(b));
}

// ---- recipients

/// A second request for the same type gets the proxy of the first, and no
/// request for another type is ever handed that proxy.
pub proof fn recipient_is_memoized(
    w: WorldView,
    t: Seq<char>,
    name: Seq<char>,
    u: Seq<char>,
    uname: Seq<char>,
)
    requires
        w.wf(),
        w.with_recipient(t, name).wf(),
        w.recipient(t, name) is Ok,
    ensures
        ({
            let id = w.recipient(t, name)->Ok_0.id;
            let w1 = w.with_recipient(t, name);
            &&& w1.recipient(t, name) == Ok::<ProxySlot, crate::world::RecipientError>(
                ProxySlot { id, created: false },
            )
            &&& (u != t && w1.recipient(u, uname) is Ok) ==> w1.recipient(u, uname)->Ok_0.id != id
        }),
{
    let w1 = w.with_recipient(t, name);
    let id = w.recipient(t, name)->Ok_0.id;
    let r = w1.recipients;
    if w.proxy_of(t) is None {
        assert(forall|i: int| 0 <= i < w.recipients.len() ==> w.recipients[i].0 != t);
        assert(r[w.recipients.len() as int].0 == t);
        assert(forall|i: int| 0 <= i < r.len() && r[i].0 == t ==> i == w.recipients.len());
    }
    assert(exists|i: int| 0 <= i < r.len() && r[i].0 == t);
    assert(w1.proxy_of(t) == Some(id as nat));
    if u != t && w1.recipient(u, uname) is Ok {
        assert(r[id as int].0 == t);
        if w1.proxy_of(u) is Some {
            let j = choose|j: int| 0 <= j < r.len() && r[j].0 == u;
            assert(w1.proxy_of(u) == Some(j as nat));
            assert(j != id);
        } else {
            assert(id < r.len());
        }
    }
}

// ---- shutdown

/// The coordinator after each disconnection of `ids`, in order.
pub open spec fn disconnect_all(w: WorldView, ids: Seq<usize>) -> WorldView
    decreases ids.len(),
{
    if ids.len() == 0 {
        w
    } else {
        disconnect_all(w, ids.drop_last()).disconnect(ids.last())
    }
}

proof fn lemma_disconnect(w: WorldView, id: usize)
    requires
        w.wf(),
    ensures
        w.disconnect(id).wf(),
        w.disconnect(id).workers.to_set() == w.workers.to_set().remove(id),
        w.disconnect(id).wid == w.wid,
{
    let ws = w.workers;
    let rest = w.without_worker(id);
    if ws.contains(id) {
        let c = choose|i: int| 0 <= i < ws.len() && ws[i] == id;
        ws.remove_ensures(c);
        assert forall|a: int, b: int| 0 <= a < b < rest.len() implies rest[a] < rest[b] by {
            let a2 = if a < c { a } else { a + 1 };
            let b2 = if b < c { b } else { b + 1 };
            assert(ws[a2] < ws[b2]);
        }
        assert forall|a: int| 0 <= a < rest.len() implies 1 <= #[trigger] rest[a] <= w.wid by {
            let a2 = if a < c { a } else { a + 1 };
            assert(1 <= ws[a2] <= w.wid);
        }
        assert forall|x: usize| #[trigger] rest.to_set().contains(x) == ws.to_set().remove(id).contains(
            x,
        ) by {
            if rest.contains(x) {
                let k = choose|k: int| 0 <= k < rest.len() && rest[k] == x;
                let k2 = if k < c { k } else { k + 1 };
                assert(ws[k2] == x);
                assert(ws[k2] != ws[c]);
            }
            if ws.contains(x) && x != id {
                let k = choose|k: int| 0 <= k < ws.len() && ws[k] == x;
                if k < c {
                    assert(rest[k] == x);
                } else {
                    assert(k != c);
                    assert(rest[k - 1] == x);
                }
            }
        }
        assert(rest.to_set() =~= ws.to_set().remove(id));
    } else {
        assert(ws.to_set() =~= ws.to_set().remove(id));
    }
}

proof fn lemma_empty_iff(s: Seq<usize>)
    ensures
        s.len() == 0 <==> s.to_set() == Set::<usize>::empty(),
{
    if s.len() > 0 {
        assert(s.to_set().contains(s[0]));
    } else {
        assert(s.to_set() =~= Set::<usize>::empty());
    }
}

proof fn lemma_draining(d: WorldView, ids: Seq<usize>)
    requires
        d.wf(),
        d.phase == Phase::Draining,
    ensures
        disconnect_all(d, ids).wf(),
        disconnect_all(d, ids).workers.to_set() == d.workers.to_set().difference(ids.to_set()),
        disconnect_all(d, ids).phase == Phase::Draining || disconnect_all(d, ids).phase
            == Phase::Terminating,
    decreases ids.len(),
{
    if ids.len() == 0 {
        assert(d.workers.to_set().difference(ids.to_set()) =~= d.workers.to_set());
    } else {
        let init = ids.drop_last();
        lemma_draining(d, init);
        let s = disconnect_all(d, init);
        lemma_disconnect(s, ids.last());
        assert forall|x: usize| #[trigger] ids.to_set().contains(x) == (init.to_set().contains(x) || x
            == ids.last()) by {
            if ids.contains(x) {
                let k = choose|k: int| 0 <= k < ids.len() && ids[k] == x;
                if k < ids.len() - 1 {
                    assert(init[k] == x);
                }
            }
            if init.contains(x) {
                let k = choose|k: int| 0 <= k < init.len() && init[k] == x;
                assert(ids[k] == x);
            }
            assert(ids[ids.len() - 1] == ids.last());
        }
        assert(disconnect_all(d, ids).workers.to_set() =~= d.workers.to_set().difference(
            ids.to_set(),
        ));
    }
}

/// A termination signal that finds workers registered reaches `Terminating`
/// after a sequence of disconnections exactly when each of those workers is
/// among them; `Terminating` never holds while a worker is registered.
pub proof fn drain_is_complete(w: WorldView, sig: Signal, ids: Seq<usize>)
    requires
        w.wf(),
        w.stops(sig),
        w.workers.len() > 0,
    ensures
        (disconnect_all(w.signal(sig), ids).phase == Phase::Terminating) == (forall|k: int|
            0 <= k < w.workers.len() ==> ids.contains(#[trigger] w.workers[k])),
        disconnect_all(w.signal(sig), ids).phase == Phase::Terminating ==> disconnect_all(
            w.signal(sig),
            ids,
        ).workers.len() == 0,
{
    let d = w.signal(sig);
    lemma_draining(d, ids);
    let s = disconnect_all(d, ids);
    lemma_empty_iff(s.workers);
    if s.phase == Phase::Terminating {
        assert forall|k: int| 0 <= k < w.workers.len() implies ids.contains(#[trigger] w.workers[k]) by {
            assert(d.workers.to_set().contains(w.workers[k]));
            assert(!s.workers.to_set().contains(w.workers[k]));
        }
    } else {
        assert(s.workers.len() > 0);
        let x = s.workers[0];
        assert(s.workers.to_set().contains(x));
        let k = choose|k: int| 0 <= k < w.workers.len() && w.workers[k] == x;
        assert(!ids.contains(w.workers[k]));
    }
}

// ---- connection ids

/// The coordinator after each event of `evs`, in order: `None` is an
/// accepted connection, `Some(id)` the disconnection of worker `id`.
pub open spec fn run(w: WorldView, evs: Seq<Option<usize>>) -> WorldView
    decreases evs.len(),
{
    if evs.len() == 0 {
        w
    } else {
        let prev = run(w, evs.drop_last());
        match evs.last() {
            None => prev.accept(),
            Some(id) => prev.disconnect(id),
        }
    }
}

/// The connection ids handed out along `evs`, in order.
pub open spec fn handed(w: WorldView, evs: Seq<Option<usize>>) -> Seq<usize>
    decreases evs.len(),
{
    if evs.len() == 0 {
        Seq::empty()
    } else {
        let prev = run(w, evs.drop_last());
        let h = handed(w, evs.drop_last());
        if evs.last() is None && prev.accepts() {
            h.push((prev.wid + 1) as usize)
        } else {
            h
        }
    }
}

/// Connection ids are never handed out twice: along any run, each accepted
/// connection gets an id above all ids handed out before it, and above the
/// ids that were already in use.
pub proof fn connection_ids_are_unique(w: WorldView, evs: Seq<Option<usize>>)
    ensures
        forall|i: int, j: int|
            0 <= i < j < handed(w, evs).len() ==> handed(w, evs)[i] < handed(w, evs)[j],
        forall|i: int|
            0 <= i < handed(w, evs).len() ==> w.wid < #[trigger] handed(w, evs)[i] <= run(w, evs).wid,
        w.wid <= run(w, evs).wid,
    decreases evs.len(),
{
    if evs.len() > 0 {
        let init = evs.drop_last();
        connection_ids_are_unique(w, init);
        let h = handed(w, init);
        let p = run(w, init);
        if evs.last() is None && p.accepts() {
            assert(handed(w, evs) == h.push((p.wid + 1) as usize));
            assert(run(w, evs).wid == p.wid + 1);
        } else {
            assert(handed(w, evs) == h);
            assert(run(w, evs).wid == p.wid);
        }
    }
}

} // verus!
