//! Connections into an expression node, and the commands that move them when
//! the node's binding set changes.
//!
//! Input slot 0 of a node takes its text; slot `i + 1` takes binding `i`. The
//! connections themselves belong to the host's graph; here they are a set of
//! wires, and a command changes that set.

use vstd::prelude::*;

verus! {

/// An output pin of some other node: which node, which output.
#[derive(Clone, Copy, Debug, PartialEq, Eq, Structural)]
pub struct Endpoint {
    pub node: usize,
    pub output: usize,
}

/// A connection from a remote output into an input slot of this node.
#[derive(Clone, Copy, Debug, PartialEq, Eq, Structural)]
pub struct Wire {
    pub remote: Endpoint,
    pub slot: usize,
}

/// A change to the connections of the node.
#[derive(Clone, Copy, Debug, PartialEq, Eq, Structural)]
pub enum Command {
    /// Remove every connection into the slot.
    DropInputs(usize),
    /// Remove one connection.
    Disconnect(Wire),
    /// Add one connection.
    Connect(Wire),
}

pub open spec fn apply_one(ws: Set<Wire>, c: Command) -> Set<Wire> {
    match c {
        Command::DropInputs(s) => ws.filter(|w: Wire| w.slot != s),
        Command::Disconnect(w) => ws.remove(w),
        Command::Connect(w) => ws.insert(w),
    }
}

/// The connections after the commands `cs`, applied in order to `ws`.
pub open spec fn apply(ws: Set<Wire>, cs: Seq<Command>) -> Set<Wire>
    decreases cs.len(),
{
    if cs.len() == 0 {
        ws
    } else {
        apply_one(apply(ws, cs.drop_last()), cs.last())
    }
}

/// Slot `s` feeds an old binding whose name is gone (`m` maps each old
/// binding to its new index).
pub open spec fn dropped(m: Seq<Option<int>>, s: int) -> bool {
    1 <= s <= m.len() && m[s - 1] is None
}

/// Slot `s` feeds an old binding whose name now stands at another index.
pub open spec fn moved(m: Seq<Option<int>>, s: int) -> bool {
    1 <= s <= m.len() && m[s - 1] is Some && m[s - 1]->0 + 1 != s
}

/// The slot that the binding fed by old slot `s` has now.
pub open spec fn target(m: Seq<Option<int>>, s: int) -> int {
    m[s - 1]->0 + 1
}

/// Whether `w` is a connection after the migration of `ws` by `m`: one
/// untouched, or a moved one at its new slot. Connections of bindings that
/// are gone are not.
pub open spec fn migrated(ws: Set<Wire>, m: Seq<Option<int>>, w: Wire) -> bool {
    ||| ws.contains(w) && !dropped(m, w.slot as int) && !moved(m, w.slot as int)
    ||| exists|v: Wire|
        #![trigger ws.contains(v)]
        ws.contains(v) && moved(m, v.slot as int) && w.remote == v.remote && w.slot == target(
            m,
            v.slot as int,
        )
}

/// `DropInputs` for the slot of each old binding whose name is gone, in slot
/// order.
pub open spec fn drop_cmds(m: Seq<Option<int>>) -> Seq<Command>
    decreases m.len(),
{
    if m.len() == 0 {
        Seq::empty()
    } else if m.last() is None {
        drop_cmds(m.drop_last()).push(Command::DropInputs(m.len() as usize))
    } else {
        drop_cmds(m.drop_last())
    }
}

/// `Disconnect` for each connection of `ws`, in order, whose binding moved.
pub open spec fn moves_out(m: Seq<Option<int>>, ws: Seq<Wire>) -> Seq<Command>
    decreases ws.len(),
{
    if ws.len() == 0 {
        Seq::empty()
    } else if moved(m, ws.last().slot as int) {
        moves_out(m, ws.drop_last()).push(Command::Disconnect(ws.last()))
    } else {
        moves_out(m, ws.drop_last())
    }
}

/// `Connect` at the new slot for each connection of `ws`, in order, whose
/// binding moved.
pub open spec fn moves_in(m: Seq<Option<int>>, ws: Seq<Wire>) -> Seq<Command>
    decreases ws.len(),
{
    if ws.len() == 0 {
        Seq::empty()
    } else if moved(m, ws.last().slot as int) {
        moves_in(m, ws.drop_last()).push(
            Command::Connect(
                Wire { remote: ws.last().remote, slot: target(m, ws.last().slot as int) as usize },
            ),
        )
    } else {
        moves_in(m, ws.drop_last())
    }
}

/// The commands of a migration by `m` of the connections `ws`: all drops,
/// then all disconnections, then all connections.
pub open spec fn migration_cmds(m: Seq<Option<int>>, ws: Seq<Wire>) -> Seq<Command> {
    drop_cmds(m) + moves_out(m, ws) + moves_in(m, ws)
}

proof fn lemma_apply_push(ws: Set<Wire>, cs: Seq<Command>, c: Command)
    ensures
        apply(ws, cs.push(c)) == apply_one(apply(ws, cs), c),
{
    assert(cs.push(c).drop_last() =~= cs);
}

/// The commands that migrate the connections `wires` when the binding set
/// changes by `m` (old index to new index, or `None`), exactly
/// `migration_cmds`: a `DropInputs` for the slot of each vanished name, in
/// slot order; then a `Disconnect` of each connection whose binding moved;
/// then a `Connect` of each of those at its binding's new slot. Unchanged
/// slots and slot 0 get no command. All computed from the one snapshot
/// `wires`, before any command runs. Taking every moved connection out
/// before putting any back still disconnects each remote before it is
/// connected again, and keeps a remote that feeds two slots whose bindings
/// trade places wired to both.
pub fn plan_migration(m: &Vec<Option<usize>>, wires: &Vec<Wire>) -> (r: Vec<Command>)
    requires
        forall|i: int| 0 <= i < m@.len() ==> (#[trigger] m@[i] matches Some(j) ==> j + 1 <= usize::MAX),
    ensures
        r@ == migration_cmds(m@.map_values(|o: Option<usize>| crate::bindings::opt_int(o)), wires@),
        forall|w: Wire|
            #[trigger] apply(wires@.to_set(), r@).contains(w) <==> migrated(
                wires@.to_set(),
                m@.map_values(|o: Option<usize>| crate::bindings::opt_int(o)),
                w,
            ),
{
    let ghost mm = m@.map_values(|o: Option<usize>| crate::bindings::opt_int(o));
    let ghost ws = wires@.to_set();
    let mut r: Vec<Command> = Vec::new();
    let mut i: usize = 0;
    while i < m.len()
        invariant
            i <= m@.len(),
            mm == m@.map_values(|o: Option<usize>| crate::bindings::opt_int(o)),
            ws == wires@.to_set(),
            r@ == drop_cmds(mm.subrange(0, i as int)),
            forall|w: Wire|
                #[trigger] apply(ws, r@).contains(w) <==> ws.contains(w) && !(dropped(mm, w.slot as int)
                    && w.slot <= i),
        decreases m@.len() - i,
    {
        assert(mm.subrange(0, i + 1).drop_last() =~= mm.subrange(0, i as int));
        assert(mm[i as int] == crate::bindings::opt_int(m@[i as int]));
        if m[i].is_none() {
            proof {
                lemma_apply_push(ws, r@, Command::DropInputs((i + 1) as usize));
            }
            r.push(Command::DropInputs(i + 1));
        }
        i = i + 1;
    }
    assert(mm.subrange(0, mm.len() as int) =~= mm);
    assert(drop_cmds(mm) + Seq::<Command>::empty() =~= drop_cmds(mm));
    let mut k: usize = 0;
    while k < wires.len()
        invariant
            k <= wires@.len(),
            mm == m@.map_values(|o: Option<usize>| crate::bindings::opt_int(o)),
            ws == wires@.to_set(),
            r@ == drop_cmds(mm) + moves_out(mm, wires@.subrange(0, k as int)),
            forall|w: Wire|
                #[trigger] apply(ws, r@).contains(w) <==> ws.contains(w) && !dropped(mm, w.slot as int)
                    && !(moved(mm, w.slot as int) && exists|c: int| 0 <= c < k && #[trigger] wires@[c] == w),
        decreases wires@.len() - k,
    {
        let w = wires[k];
        let s = w.slot;
        assert(wires@.subrange(0, k + 1).drop_last() =~= wires@.subrange(0, k as int));
        assert(wires@.subrange(0, k + 1).last() == w);
        if 1 <= s && s <= m.len() {
            assert(mm[s - 1] == crate::bindings::opt_int(m@[s - 1]));
        }
        if 1 <= s && s <= m.len() {
            match m[s - 1] {
                Some(j) => {
                    if j != s - 1 {
                        proof {
                            lemma_apply_push(ws, r@, Command::Disconnect(w));
                            assert((drop_cmds(mm) + moves_out(mm, wires@.subrange(0, k as int))).push(Command::Disconnect(w))
                                =~= drop_cmds(mm) + moves_out(mm, wires@.subrange(0, k as int)).push(Command::Disconnect(w)));
                        }
                        r.push(Command::Disconnect(w));
                    }
                },
                None => {},
            }
        }
        k = k + 1;
    }
    assert(wires@.subrange(0, wires@.len() as int) =~= wires@);
    assert(migration_cmds(mm, Seq::<Wire>::empty()) == drop_cmds(mm) + Seq::<Command>::empty() + Seq::<Command>::empty());
    assert(drop_cmds(mm) + moves_out(mm, wires@) + Seq::<Command>::empty() =~= drop_cmds(mm) + moves_out(mm, wires@));
    let mut k: usize = 0;
    while k < wires.len()
        invariant
            k <= wires@.len(),
            mm == m@.map_values(|o: Option<usize>| crate::bindings::opt_int(o)),
            ws == wires@.to_set(),
            forall|i: int| 0 <= i < m@.len() ==> (#[trigger] m@[i] matches Some(j) ==> j + 1 <= usize::MAX),
            r@ == drop_cmds(mm) + moves_out(mm, wires@) + moves_in(mm, wires@.subrange(0, k as int)),
            forall|w: Wire|
                #[trigger] apply(ws, r@).contains(w) <==> (ws.contains(w) && !dropped(mm, w.slot as int)
                    && !moved(mm, w.slot as int)) || exists|c: int|
                    0 <= c < k && moved(mm, wires@[c].slot as int) && w.remote == wires@[c].remote
                        && w.slot == target(mm, wires@[c].slot as int),
        decreases wires@.len() - k,
    {
        let w = wires[k];
        let s = w.slot;
        assert(wires@.subrange(0, k + 1).drop_last() =~= wires@.subrange(0, k as int));
        assert(wires@.subrange(0, k + 1).last() == w);
        if 1 <= s && s <= m.len() {
            assert(mm[s - 1] == crate::bindings::opt_int(m@[s - 1]));
        }
        if 1 <= s && s <= m.len() {
            match m[s - 1] {
                Some(j) => {
                    if j + 1 != s {
                        let nw = Wire { remote: w.remote, slot: j + 1 };
                        proof {
                            lemma_apply_push(ws, r@, Command::Connect(nw));
                            let pre = drop_cmds(mm) + moves_out(mm, wires@);
                            assert((pre + moves_in(mm, wires@.subrange(0, k as int))).push(Command::Connect(nw))
                                =~= pre + moves_in(mm, wires@.subrange(0, k as int)).push(Command::Connect(nw)));
                        }
                        r.push(Command::Connect(nw));
                    }
                },
                None => {},
            }
        }
        k = k + 1;
    }
    proof {
        assert(wires@.subrange(0, wires@.len() as int) =~= wires@);
        assert forall|w: Wire| #[trigger] apply(ws, r@).contains(w) <==> migrated(ws, mm, w) by {
            if migrated(ws, mm, w) && !(ws.contains(w) && !dropped(mm, w.slot as int) && !moved(mm, w.slot as int)) {
                let v = choose|v: Wire| ws.contains(v) && moved(mm, v.slot as int) && w.remote == v.remote
                    && w.slot == target(mm, v.slot as int);
                let c = choose|c: int| 0 <= c < wires@.len() && wires@[c] == v;
                assert(0 <= c < wires@.len() && moved(mm, wires@[c].slot as int));
            }
            if exists|c: int| 0 <= c < wires@.len() && moved(mm, wires@[c].slot as int) && w.remote
                == wires@[c].remote && w.slot == target(mm, wires@[c].slot as int) {
                let c = choose|c: int| 0 <= c < wires@.len() && moved(mm, wires@[c].slot as int)
                    && w.remote == wires@[c].remote && w.slot == target(mm, wires@[c].slot as int);
                assert(ws.contains(wires@[c]));
            }
        }
    }
    r
}

} // verus!
