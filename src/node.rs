//! One expression node: its text, its compiled tree, its binding set and the
//! current value of each binding. An edit either parses, and then the node
//! takes the new tree and reports how its connections must move, or it does
//! not, and then nothing changes.

use vstd::prelude::*;

use crate::ast::{Expr, ExprView};
use crate::bindings::{
    bindings_of, carried, carry_values, collect_bindings, index_in, lemma_bindings_of, lemma_index_in,
    names, opt_int, slot_map, slot_mapping,
};
use crate::parser::{parse, parse_spec, ParseError};
use crate::wiring::{apply, drop_cmds, migrated, migration_cmds, moves_in, moves_out, plan_migration, Command, Wire};

verus! {

/// The model of an [`ExprNode`].
pub struct NodeView<V> {
    pub text: Seq<char>,
    pub ast: ExprView,
    pub bindings: Seq<Seq<char>>,
    pub values: Seq<V>,
}

/// The state of one expression node. Values are whatever the host computes
/// with; this type only keeps and moves them.
pub struct ExprNode<V> {
    text: String,
    ast: Expr,
    bindings: Vec<String>,
    values: Vec<V>,
}

impl<V> View for ExprNode<V> {
    type V = NodeView<V>;

    closed spec fn view(&self) -> NodeView<V> {
        NodeView {
            text: self.text@,
            ast: self.ast@,
            bindings: names(self.bindings@),
            values: self.values@,
        }
    }
}

/// A node whose binding set is that of its tree, one value per binding.
pub open spec fn node_wf<V>(n: NodeView<V>) -> bool {
    &&& n.bindings == bindings_of(n.ast)
    &&& n.values.len() == n.bindings.len()
}

/// What an edit to `text` does to node `before` and to the connections
/// `wires` into it: on a parse, the node takes the text, the tree, its
/// bindings and their carried values, and the commands are those of the
/// migration of `wires` by the slot map (drops, then disconnections, then
/// connections), which leave exactly the migrated connections; otherwise no
/// command is issued and the node stays as it was.
pub open spec fn edit_outcome<V>(
    before: NodeView<V>,
    after: NodeView<V>,
    text: Seq<char>,
    fresh: V,
    wires: Seq<Wire>,
    r: Result<Seq<Command>, ParseError>,
) -> bool {
    match parse_spec(text) {
        Ok(e) => {
            &&& r matches Ok(cs)
            &&& after.text == text
            &&& after.ast == e
            &&& after.bindings == bindings_of(e)
            &&& after.values == carried(before.bindings, before.values, after.bindings, fresh)
            &&& r->Ok_0 == migration_cmds(slot_map(before.bindings, after.bindings), wires)
            &&& forall|w: Wire| #[trigger]
                apply(wires.to_set(), r->Ok_0).contains(w) <==> migrated(
                    wires.to_set(),
                    slot_map(before.bindings, after.bindings),
                    w,
                )
        },
        Err(k) => r == Err::<Seq<Command>, ParseError>(k) && after == before,
    }
}

pub open spec fn commands_view(r: Result<Vec<Command>, ParseError>) -> Result<Seq<Command>, ParseError> {
    match r {
        Ok(cs) => Ok(cs@),
        Err(k) => Err(k),
    }
}

impl<V> ExprNode<V> {
    /// Every node, however it was made or changed, is well formed.
    #[verifier::type_invariant]
    spec fn inv(&self) -> bool {
        node_wf(self@)
    }
}

impl<V: Copy> ExprNode<V> {
    pub open spec fn wf(&self) -> bool {
        node_wf(self@)
    }

    /// A node with empty text, the constant zero as its tree, no bindings.
    pub fn new() -> (r: Self)
        ensures
            r.wf(),
            r@.text.len() == 0,
            r@.ast == ExprView::Val(seq!['0']),
            r@.bindings.len() == 0,
    {
        proof {
            reveal_strlit("0");
        }
        let zero = "0".to_owned();
        assert(zero@ =~= seq!['0']);
        let ast = Expr::Val(zero);
        let bindings: Vec<String> = Vec::new();
        assert(names(bindings@) =~= bindings_of(ast@));
        ExprNode { text: String::new(), ast, bindings, values: Vec::new() }
    }

    /// Rebuilds a node from its saved text, bindings and values. The text is
    /// parsed again and the binding set comes from the new tree, never from
    /// what was saved; a saved value survives where its name is still bound,
    /// and a name the saved bindings lack starts at `fresh`.
    pub fn restore(text: &str, saved_bindings: &Vec<String>, saved_values: &Vec<V>, fresh: V) -> (r: Result<Self, ParseError>)
        requires
            saved_values@.len() == saved_bindings@.len(),
        ensures
            match r {
                Ok(n) => n.wf() && parse_spec(text@) == Ok::<ExprView, ParseError>(n@.ast) && n@.text == text@
                    && n@.values == carried(names(saved_bindings@), saved_values@, n@.bindings, fresh),
                Err(k) => parse_spec(text@) == Err::<ExprView, ParseError>(k),
            },
    {
        let e = match parse(text) {
            Ok(e) => e,
            Err(k) => return Err(k),
        };
        let bindings = collect_bindings(&e);
        let values = carry_values(saved_bindings, saved_values, &bindings, fresh);
        Ok(ExprNode { text: text.to_owned(), ast: e, bindings, values })
    }

    /// The text of the last edit that parsed.
    pub fn text(&self) -> (r: &String)
        ensures
            r@ == self@.text,
    {
        &self.text
    }

    /// The compiled tree.
    pub fn ast(&self) -> (r: &Expr)
        ensures
            r@ == self@.ast,
    {
        &self.ast
    }

    /// The binding names, in slot order.
    pub fn bindings(&self) -> (r: &Vec<String>)
        ensures
            names(r@) == self@.bindings,
    {
        &self.bindings
    }

    /// The binding values, in slot order.
    pub fn values(&self) -> (r: &Vec<V>)
        ensures
            r@ == self@.values,
    {
        &self.values
    }

    pub fn binding_count(&self) -> (r: usize)
        ensures
            r == self@.bindings.len(),
    {
        self.bindings.len()
    }

    /// The name bound at input slot `slot` (slots of bindings start at 1).
    pub fn binding_name(&self, slot: usize) -> (r: &String)
        requires
            1 <= slot <= self@.bindings.len(),
        ensures
            r@ == self@.bindings[slot - 1],
    {
        &self.bindings[slot - 1]
    }

    /// The value bound at input slot `slot`.
    pub fn binding_value(&self, slot: usize) -> (r: V)
        requires
            1 <= slot <= self@.bindings.len(),
        ensures
            r == self@.values[slot - 1],
    {
        proof {
            use_type_invariant(self);
        }
        self.values[slot - 1]
    }

    /// Sets the value bound at input slot `slot`, as an upstream connection
    /// delivers it.
    pub fn set_binding_value(&mut self, slot: usize, v: V)
        requires
            1 <= slot <= old(self)@.bindings.len(),
        ensures
            final(self).wf(),
            final(self)@ == (NodeView { values: old(self)@.values.update(slot - 1, v), ..old(self)@ }),
    {
        proof {
            use_type_invariant(&*self);
        }
        self.values[slot - 1] = v;
        proof {
            use_type_invariant(&*self);
        }
    }

    /// Edits the node's text. Where `text` parses, the node takes the new
    /// tree and binding set, each surviving name keeps its value, each new
    /// name starts at `fresh`, and the result lists the commands that move
    /// the connections `wires` into this node along with their bindings.
    /// Where it does not parse, the node is left as it was and the error
    /// says why.
    pub fn apply_text_edit(&mut self, text: &str, wires: &Vec<Wire>, fresh: V) -> (r: Result<Vec<Command>, ParseError>)
        ensures
            final(self).wf(),
            edit_outcome(old(self)@, final(self)@, text@, fresh, wires@, commands_view(r)),
    {
        proof {
            use_type_invariant(&*self);
        }
        let e = match parse(text) {
            Ok(e) => e,
            Err(k) => return Err(k),
        };
        let new_bindings = collect_bindings(&e);
        let values = carry_values(&self.bindings, &self.values, &new_bindings, fresh);
        let m = slot_mapping(&self.bindings, &new_bindings);
        let n_new = new_bindings.len();
        proof {
            let mm = m@.map_values(|o: Option<usize>| opt_int(o));
            assert(mm.len() == m@.len());
            assert(mm.len() == self.bindings@.len());
            assert forall|i: int| 0 <= i < m@.len() implies (#[trigger] m@[i] matches Some(j) ==> j + 1 <= usize::MAX) by {
                assert(opt_int(m@[i]) == mm[i]);
                assert(mm[i] == crate::bindings::index_in(names(new_bindings@), names(self.bindings@)[i]));
                lemma_index_in(names(new_bindings@), names(self.bindings@)[i]);
                assert(names(new_bindings@).len() == new_bindings@.len());
                assert(new_bindings@.len() == n_new);
            }
        }
        let cmds = plan_migration(&m, wires);
        *self = ExprNode { text: text.to_owned(), ast: e, bindings: new_bindings, values };
        Ok(cmds)
    }
}

/// Applying, to a node that has just taken an edit, the same text once more
/// changes nothing: the node ends as it was and no command is issued, so
/// every connection stays in place.
pub proof fn lemma_edit_idempotent<V>(
    n0: NodeView<V>,
    n1: NodeView<V>,
    n2: NodeView<V>,
    text: Seq<char>,
    fresh: V,
    wires0: Seq<Wire>,
    wires1: Seq<Wire>,
    r1: Result<Seq<Command>, ParseError>,
    r2: Result<Seq<Command>, ParseError>,
)
    requires
        node_wf(n0),
        edit_outcome(n0, n1, text, fresh, wires0, r1),
        r1 is Ok,
        edit_outcome(n1, n2, text, fresh, wires1, r2),
    ensures
        n2 == n1,
        r2 == Ok::<Seq<Command>, ParseError>(Seq::empty()),
{
    let e = parse_spec(text)->Ok_0;
    let b = bindings_of(e);
    lemma_bindings_of(e);
    assert forall|j: int| 0 <= j < b.len() implies index_in_self(b, j) by {
        lemma_unique_index(b, j);
    }
    assert(n2.values =~= n1.values);
    assert(n2 == n1);
    let m = slot_map(b, b);
    lemma_identity_issues_nothing(m, wires1);
}

/// A slot map that keeps every binding where it was issues no command.
proof fn lemma_identity_issues_nothing(m: Seq<Option<int>>, ws: Seq<Wire>)
    requires
        forall|i: int| 0 <= i < m.len() ==> #[trigger] m[i] == Some(i),
    ensures
        migration_cmds(m, ws) == Seq::<Command>::empty(),
{
    lemma_no_drops(m);
    lemma_no_moves(m, ws);
    assert(Seq::<Command>::empty() + Seq::<Command>::empty() + Seq::<Command>::empty() =~= Seq::<Command>::empty());
}

proof fn lemma_no_drops(m: Seq<Option<int>>)
    requires
        forall|i: int| 0 <= i < m.len() ==> #[trigger] m[i] == Some(i),
    ensures
        drop_cmds(m) == Seq::<Command>::empty(),
    decreases m.len(),
{
    if m.len() > 0 {
        let p = m.drop_last();
        assert forall|i: int| 0 <= i < p.len() implies #[trigger] p[i] == Some(i) by {
            assert(p[i] == m[i]);
        }
        lemma_no_drops(p);
        assert(m.last() == m[m.len() - 1]);
    }
}

proof fn lemma_no_moves(m: Seq<Option<int>>, ws: Seq<Wire>)
    requires
        forall|i: int| 0 <= i < m.len() ==> #[trigger] m[i] == Some(i),
    ensures
        moves_out(m, ws) == Seq::<Command>::empty(),
        moves_in(m, ws) == Seq::<Command>::empty(),
    decreases ws.len(),
{
    if ws.len() > 0 {
        lemma_no_moves(m, ws.drop_last());
        let s = ws.last().slot as int;
        if 1 <= s <= m.len() {
            assert(m[s - 1] == Some(s - 1));
        }
    }
}

/// Connections follow names. Let `ws` be the connections into a node whose
/// bindings were `old` (slot 0 and the slots of `old` only) and are now `new`.
/// After the migration every connection that fed a name still in `new` feeds
/// that name at its new slot; every connection into a slot of `new` comes from
/// one that fed the same name before; and the text slot keeps exactly its
/// connections. (`new` is the view of a binding list, so its slots fit a
/// `usize`.)
pub proof fn lemma_connections_follow_names(old: Seq<Seq<char>>, new: Seq<Seq<char>>, ws: Set<Wire>)
    requires
        new.len() <= usize::MAX,
        forall|v: Wire| #[trigger] ws.contains(v) ==> v.slot <= old.len(),
    ensures
        forall|v: Wire|
            #![trigger ws.contains(v)]
            ws.contains(v) && 1 <= v.slot <= old.len() && new.contains(old[v.slot - 1])
                ==> exists|w: Wire|
                #![trigger migrated(ws, slot_map(old, new), w)]
                migrated(ws, slot_map(old, new), w) && w.remote == v.remote && w.slot == index_in(
                    new,
                    old[v.slot - 1],
                )->0 + 1,
        forall|w: Wire|
            #![trigger migrated(ws, slot_map(old, new), w)]
            migrated(ws, slot_map(old, new), w) && 1 <= w.slot <= new.len() ==> exists|v: Wire|
                #![trigger ws.contains(v)]
                ws.contains(v) && v.remote == w.remote && 1 <= v.slot <= old.len() && old[v.slot - 1]
                    == new[w.slot - 1],
        forall|w: Wire|
            #![trigger migrated(ws, slot_map(old, new), w)]
            w.slot == 0 ==> (migrated(ws, slot_map(old, new), w) <==> ws.contains(w)),
{
    let m = slot_map(old, new);
    assert forall|v: Wire|
        #![trigger ws.contains(v)]
        ws.contains(v) && 1 <= v.slot <= old.len() && new.contains(old[v.slot - 1]) implies exists|w: Wire|
        #![trigger migrated(ws, m, w)]
        migrated(ws, m, w) && w.remote == v.remote && w.slot == index_in(new, old[v.slot - 1])->0 + 1 by {
        lemma_index_in(new, old[v.slot - 1]);
        if crate::wiring::moved(m, v.slot as int) {
            let j = index_in(new, old[v.slot - 1])->0;
            assert(j + 1 <= usize::MAX) by {
                assert(m[v.slot - 1] == Some(j));
            }
            let w = Wire { remote: v.remote, slot: (j + 1) as usize };
            assert(migrated(ws, m, w));
        } else {
            assert(migrated(ws, m, v));
        }
    }
    assert forall|w: Wire|
        #![trigger migrated(ws, m, w)]
        w.slot == 0 implies (migrated(ws, m, w) <==> ws.contains(w)) by {
        if exists|v: Wire| #![trigger ws.contains(v)] ws.contains(v) && crate::wiring::moved(m, v.slot as int) && w.remote == v.remote
            && w.slot == crate::wiring::target(m, v.slot as int) {
            let v = choose|v: Wire| ws.contains(v) && crate::wiring::moved(m, v.slot as int) && w.remote == v.remote
                && w.slot == crate::wiring::target(m, v.slot as int);
            lemma_index_in(new, old[v.slot - 1]);
        }
    }
    assert forall|w: Wire|
        #![trigger migrated(ws, m, w)]
        migrated(ws, m, w) && 1 <= w.slot <= new.len() implies exists|v: Wire|
        #![trigger ws.contains(v)]
        ws.contains(v) && v.remote == w.remote && 1 <= v.slot <= old.len() && old[v.slot - 1] == new[w.slot - 1] by {
        if ws.contains(w) && !crate::wiring::dropped(m, w.slot as int) && !crate::wiring::moved(m, w.slot as int) {
            lemma_index_in(new, old[w.slot - 1]);
        } else {
            let v = choose|v: Wire| ws.contains(v) && crate::wiring::moved(m, v.slot as int) && w.remote == v.remote
                && w.slot == crate::wiring::target(m, v.slot as int);
            lemma_index_in(new, old[v.slot - 1]);
        }
    }
}

spec fn index_in_self(b: Seq<Seq<char>>, j: int) -> bool {
    crate::bindings::index_in(b, b[j]) == Some(j)
}

proof fn lemma_unique_index(b: Seq<Seq<char>>, j: int)
    requires
        b.no_duplicates(),
        0 <= j < b.len(),
    ensures
        index_in_self(b, j),
{
    lemma_index_in(b, b[j]);
}

} // verus!
