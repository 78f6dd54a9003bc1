//! Wiring an imported graph description onto the canvas. The description's
//! node statements and edge statements arrive as plain values; each canvas
//! node was registered under the name it is shown with.

use vstd::prelude::*;

verus! {

/// A node statement: the node's id and its attributes, in order.
pub struct NodeDecl {
    pub id: String,
    pub attrs: Vec<(String, String)>,
}

/// An edge statement: one source, one or more targets.
pub struct EdgeDecl {
    pub from: String,
    pub to: Vec<String>,
}

/// Canvas node registered under `k` in `map`; a later entry overrides an
/// earlier one under the same name.
pub open spec fn lookup(map: Seq<(String, usize)>, k: Seq<char>) -> Option<usize>
    decreases map.len(),
{
    if map.len() == 0 {
        None
    } else if map.last().0@ == k {
        Some(map.last().1)
    } else {
        lookup(map.drop_last(), k)
    }
}

/// What the attributes of the statement of node `id` say about `k`: the first
/// `label` attribute whose value is `k`, or any `label` attribute when `id` is
/// `k`, leads to the node registered under `id`, else to the one registered
/// under the label.
pub open spec fn resolve_attrs(
    id: Seq<char>,
    attrs: Seq<(String, String)>,
    k: Seq<char>,
    map: Seq<(String, usize)>,
) -> Option<usize>
    decreases attrs.len(),
{
    if attrs.len() == 0 {
        None
    } else {
        let hit = if attrs[0].0@ == "label"@ && (attrs[0].1@ == k || id == k) {
            match lookup(map, id) {
                Some(n) => Some(n),
                None => lookup(map, attrs[0].1@),
            }
        } else {
            None
        };
        match hit {
            Some(n) => Some(n),
            None => resolve_attrs(id, attrs.drop_first(), k, map),
        }
    }
}

pub open spec fn resolve_decls(decls: Seq<NodeDecl>, k: Seq<char>, map: Seq<(String, usize)>) -> Option<usize>
    decreases decls.len(),
{
    if decls.len() == 0 {
        None
    } else {
        match resolve_attrs(decls[0].id@, decls[0].attrs@, k, map) {
            Some(n) => Some(n),
            None => resolve_decls(decls.drop_first(), k, map),
        }
    }
}

/// The canvas node that `k`, an id or a label, stands for: the one registered
/// under `k`, else the first that the node statements lead to.
pub open spec fn resolve(decls: Seq<NodeDecl>, k: Seq<char>, map: Seq<(String, usize)>) -> Option<usize> {
    match lookup(map, k) {
        Some(n) => Some(n),
        None => resolve_decls(decls, k, map),
    }
}

/// The links `(from, to)` to the targets `to` from canvas node `from`, or
/// `None` if a target stands for no node.
pub open spec fn target_links(decls: Seq<NodeDecl>, from: usize, to: Seq<String>, map: Seq<(String, usize)>) -> Option<Seq<(usize, usize)>>
    decreases to.len(),
{
    if to.len() == 0 {
        Some(Seq::empty())
    } else {
        match (resolve(decls, to[0]@, map), target_links(decls, from, to.drop_first(), map)) {
            (Some(t), Some(rest)) => Some(seq![(from, t)] + rest),
            _ => None,
        }
    }
}

/// The links of all edge statements, in order, or `None` if an endpoint
/// stands for no node.
pub open spec fn edge_links_spec(decls: Seq<NodeDecl>, edges: Seq<EdgeDecl>, map: Seq<(String, usize)>) -> Option<Seq<(usize, usize)>>
    decreases edges.len(),
{
    if edges.len() == 0 {
        Some(Seq::empty())
    } else {
        match resolve(decls, edges[0].from@, map) {
            None => None,
            Some(f) => match (target_links(decls, f, edges[0].to@, map), edge_links_spec(decls, edges.drop_first(), map)) {
                (Some(a), Some(b)) => Some(a + b),
                _ => None,
            },
        }
    }
}

pub open spec fn prefixed(acc: Seq<(usize, usize)>, rest: Option<Seq<(usize, usize)>>) -> Option<Seq<(usize, usize)>> {
    match rest {
        Some(r) => Some(acc + r),
        None => None,
    }
}

proof fn lemma_prefixed_empty(r: Option<Seq<(usize, usize)>>)
    ensures
        prefixed(Seq::empty(), r) == r,
{
    if let Some(x) = r {
        assert(Seq::<(usize, usize)>::empty() + x =~= x);
    }
}

fn lookup_name(map: &Vec<(String, usize)>, k: &String) -> (r: Option<usize>)
    ensures
        r == lookup(map@, k@),
{
    let mut i = map.len();
    assert(map@.subrange(0, map@.len() as int) =~= map@);
    while i > 0
        invariant
            i <= map@.len(),
            lookup(map@, k@) == lookup(map@.subrange(0, i as int), k@),
        decreases i,
    {
        assert(map@.subrange(0, i as int).drop_last() =~= map@.subrange(0, i - 1));
        if map[i - 1].0 == *k {
            return Some(map[i - 1].1);
        }
        i = i - 1;
    }
    None
}

fn is_label(s: &String) -> (r: bool)
    ensures
        r == (s@ == "label"@),
{
    proof {
        reveal_strlit("label");
    }
    let l = s.as_str();
    if l.unicode_len() != 5 {
        assert(s@.len() != "label"@.len());
        return false;
    }
    let mut i: usize = 0;
    while i < 5
        invariant
            i <= 5,
            s@.len() == 5,
            "label"@.len() == 5,
            l@ == s@,
            forall|j: int| 0 <= j < i ==> s@[j] == "label"@[j],
        decreases 5 - i,
    {
        if l.get_char(i) != "label".get_char(i) {
            return false;
        }
        i = i + 1;
    }
    assert(s@ =~= "label"@);
    true
}

fn resolve_in_attrs(id: &String, attrs: &Vec<(String, String)>, k: &String, map: &Vec<(String, usize)>) -> (r: Option<usize>)
    ensures
        r == resolve_attrs(id@, attrs@, k@, map@),
{
    let mut i: usize = 0;
    assert(attrs@.subrange(0, attrs@.len() as int) =~= attrs@);
    while i < attrs.len()
        invariant
            i <= attrs@.len(),
            resolve_attrs(id@, attrs@, k@, map@) == resolve_attrs(id@, attrs@.subrange(i as int, attrs@.len() as int), k@, map@),
        decreases attrs@.len() - i,
    {
        assert(attrs@.subrange(i as int, attrs@.len() as int).drop_first() =~= attrs@.subrange(i + 1, attrs@.len() as int));
        let (a, v) = (&attrs[i].0, &attrs[i].1);
        if is_label(a) && (*v == *k || *id == *k) {
            if let Some(n) = lookup_name(map, id) {
                return Some(n);
            }
            if let Some(n) = lookup_name(map, v) {
                return Some(n);
            }
        }
        i = i + 1;
    }
    None
}

/// The canvas node that `id_or_label` stands for: the node registered under
/// that name in `node_map`, else the first node that a statement of `decls`
/// leads to through a `label` attribute.
pub fn node_id_from_label(decls: &Vec<NodeDecl>, id_or_label: &String, node_map: &Vec<(String, usize)>) -> (r: Option<usize>)
    ensures
        r == resolve(decls@, id_or_label@, node_map@),
{
    if let Some(n) = lookup_name(node_map, id_or_label) {
        return Some(n);
    }
    let mut i: usize = 0;
    assert(decls@.subrange(0, decls@.len() as int) =~= decls@);
    while i < decls.len()
        invariant
            i <= decls@.len(),
            lookup(node_map@, id_or_label@) is None,
            resolve_decls(decls@, id_or_label@, node_map@) == resolve_decls(decls@.subrange(i as int, decls@.len() as int), id_or_label@, node_map@),
        decreases decls@.len() - i,
    {
        assert(decls@.subrange(i as int, decls@.len() as int).drop_first() =~= decls@.subrange(i + 1, decls@.len() as int));
        assert(decls@.subrange(i as int, decls@.len() as int)[0] == decls@[i as int]);
        let found = resolve_in_attrs(&decls[i].id, &decls[i].attrs, id_or_label, node_map);
        if let Some(n) = found {
            return Some(n);
        }
        i = i + 1;
    }
    None
}

/// The links that the edge statements `edges` ask for, each from output 0 of
/// its source to input 0 of its target, in statement order; `None` where an
/// endpoint stands for no canvas node.
pub fn edge_links(decls: &Vec<NodeDecl>, edges: &Vec<EdgeDecl>, node_map: &Vec<(String, usize)>) -> (r: Option<Vec<(usize, usize)>>)
    ensures
        match r {
            Some(v) => edge_links_spec(decls@, edges@, node_map@) == Some(v@),
            None => edge_links_spec(decls@, edges@, node_map@) is None,
        },
{
    let mut out: Vec<(usize, usize)> = Vec::new();
    let mut i: usize = 0;
    proof {
        assert(edges@.subrange(0, edges@.len() as int) =~= edges@);
        lemma_prefixed_empty(edge_links_spec(decls@, edges@, node_map@));
    }
    while i < edges.len()
        invariant
            i <= edges@.len(),
            edge_links_spec(decls@, edges@, node_map@) == prefixed(out@, edge_links_spec(decls@, edges@.subrange(i as int, edges@.len() as int), node_map@)),
        decreases edges@.len() - i,
    {
        let ghost tail = edges@.subrange(i as int, edges@.len() as int);
        assert(tail.drop_first() =~= edges@.subrange(i + 1, edges@.len() as int));
        let from = match node_id_from_label(decls, &edges[i].from, node_map) {
            Some(f) => f,
            None => {
                proof {
                    assert(tail[0] == edges@[i as int]);
                }
                return None;
            },
        };
        let to = &edges[i].to;
        let mut j: usize = 0;
        let ghost before = out@;
        proof {
            assert(tail[0] == edges@[i as int]);
            assert(to@.subrange(0, to@.len() as int) =~= to@);
            assert(out@.subrange(before.len() as int, out@.len() as int) =~= Seq::<(usize, usize)>::empty());
            assert(out@.subrange(0, before.len() as int) =~= before);
            lemma_prefixed_empty(target_links(decls@, from, to@, node_map@));
        }
        while j < to.len()
            invariant
                i < edges@.len(),
                tail == edges@.subrange(i as int, edges@.len() as int),
                tail[0] == edges@[i as int],
                resolve(decls@, edges@[i as int].from@, node_map@) == Some(from),
                edge_links_spec(decls@, edges@, node_map@) == prefixed(before, edge_links_spec(decls@, tail, node_map@)),
                j <= to@.len(),
                to@ == edges@[i as int].to@,
                target_links(decls@, from, to@, node_map@) == prefixed(out@.subrange(before.len() as int, out@.len() as int), target_links(decls@, from, to@.subrange(j as int, to@.len() as int), node_map@)),
                out@.subrange(0, before.len() as int) == before,
                before.len() <= out@.len(),
            decreases to@.len() - j,
        {
            assert(to@.subrange(j as int, to@.len() as int).drop_first() =~= to@.subrange(j + 1, to@.len() as int));
            let t = match node_id_from_label(decls, &to[j], node_map) {
                Some(t) => t,
                None => {
                    proof {
                        assert(to@.subrange(j as int, to@.len() as int)[0] == to@[j as int]);
                        assert(target_links(decls@, from, to@, node_map@) is None);
                    }
                    return None;
                },
            };
            let ghost mid = out@;
            out.push((from, t));
            proof {
                let added = out@.subrange(before.len() as int, out@.len() as int);
                assert(added =~= mid.subrange(before.len() as int, mid.len() as int).push((from, t)));
                assert(out@.subrange(0, before.len() as int) =~= mid.subrange(0, before.len() as int));
                match target_links(decls@, from, to@.subrange(j + 1, to@.len() as int), node_map@) {
                    Some(rest) => {
                        assert(mid.subrange(before.len() as int, mid.len() as int) + (seq![(from, t)] + rest) =~= added + rest);
                    },
                    None => {},
                }
            }
            j = j + 1;
        }
        proof {
            assert(to@.subrange(j as int, to@.len() as int) =~= Seq::<String>::empty());
            let added = out@.subrange(before.len() as int, out@.len() as int);
            assert(out@ =~= before + added);
            match edge_links_spec(decls@, edges@.subrange(i + 1, edges@.len() as int), node_map@) {
                Some(rest) => {
                    assert(before + (added + rest) =~= out@ + rest);
                },
                None => {},
            }
        }
        i = i + 1;
    }
    proof {
        assert(out@ + Seq::<(usize, usize)>::empty() =~= out@);
    }
    Some(out)
}

} // verus!
