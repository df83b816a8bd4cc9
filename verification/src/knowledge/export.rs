//! Exporting a session's knowledge graph, and rendering it in Graphviz DOT.

use vstd::prelude::*;
use crate::knowledge::types::{Entity, Relationship};
use crate::text::{lemma_split_on_nonempty, push_char, push_str, split_on};
use crate::topology::string_from;

verus! {

/// The entities and relationships of one session.
#[derive(Debug)]
pub struct GraphExport {
    pub session_id: String,
    pub entities: Vec<Entity>,
    pub edges: Vec<Relationship>,
}

impl GraphExport {
    pub fn new(session_id: String, entities: Vec<Entity>, edges: Vec<Relationship>) -> (g: GraphExport)
        ensures
            g.session_id == session_id,
            g.entities == entities,
            g.edges == edges,
    {
        GraphExport { session_id, entities, edges }
    }
}

/// A character inside a quoted DOT string: backslash and double quote are escaped.
pub open spec fn escape_char(c: char) -> Seq<char> {
    if c == '\\' {
        seq!['\\', '\\']
    } else if c == '"' {
        seq!['\\', '"']
    } else {
        seq![c]
    }
}

/// `s` with every backslash doubled and every double quote preceded by a backslash.
pub open spec fn escape_dot_spec(s: Seq<char>) -> Seq<char>
    decreases s.len(),
{
    if s.len() == 0 { Seq::empty() } else { escape_dot_spec(s.drop_last()) + escape_char(s.last()) }
}

/// `s` escaped for a quoted DOT identifier (see [`escape_dot_spec`]).
pub fn escape_dot(s: &str) -> (r: String)
    ensures
        r@ == escape_dot_spec(s@),
{
    let n = s.unicode_len();
    let mut r = String::new();
    let mut i: usize = 0;
    while i < n
        invariant
            n == s@.len(),
            i <= n,
            r@ == escape_dot_spec(s@.take(i as int)),
        decreases n - i,
    {
        let c = s.get_char(i);
        let ghost before = r@;
        if c == '\\' {
            push_char(&mut r, '\\');
            push_char(&mut r, '\\');
        } else if c == '"' {
            push_char(&mut r, '\\');
            push_char(&mut r, '"');
        } else {
            push_char(&mut r, c);
        }
        proof {
            assert(s@.take(i as int + 1).drop_last() =~= s@.take(i as int));
            assert(s@.take(i as int + 1).last() == c);
            assert(r@ =~= before + escape_char(c));
        }
        i = i + 1;
    }
    assert(s@.take(n as int) =~= s@);
    r
}

/// The DOT node line of an entity: its escaped name, labelled with name and type.
pub open spec fn entity_line(e: Entity) -> Seq<char> {
    "  \""@ + escape_dot_spec(e.name@) + "\" [label=\""@ + escape_dot_spec(e.name@) + "\\n("@ + e.entity_type@ + ")\"];"@
}

/// The DOT edge line of a relationship, labelled with its type.
pub open spec fn edge_line(r: Relationship) -> Seq<char> {
    "  \""@ + escape_dot_spec(r.from@) + "\" -> \""@ + escape_dot_spec(r.to@) + "\" [label=\""@ + r.relationship_type@ + "\"];"@
}

/// The header, then each entity line and each edge line, then the closing brace, one per line.
pub open spec fn dot_entities(es: Seq<Entity>) -> Seq<char>
    decreases es.len(),
{
    if es.len() == 0 { Seq::empty() } else { dot_entities(es.drop_last()) + "\n"@ + entity_line(es.last()) }
}

pub open spec fn dot_edges(rs: Seq<Relationship>) -> Seq<char>
    decreases rs.len(),
{
    if rs.len() == 0 { Seq::empty() } else { dot_edges(rs.drop_last()) + "\n"@ + edge_line(rs.last()) }
}

pub open spec fn dot_text(export: GraphExport) -> Seq<char> {
    "digraph knowledge {"@ + dot_entities(export.entities@) + dot_edges(export.edges@) + "\n}"@
}

/// The export as a Graphviz digraph (see [`dot_text`]).
pub fn to_dot(export: &GraphExport) -> (r: String)
    ensures
        r@ == dot_text(*export),
{
    let mut r = string_from("digraph knowledge {");
    let ghost head = r@;
    let mut i: usize = 0;
    while i < export.entities.len()
        invariant
            i <= export.entities@.len(),
            head == "digraph knowledge {"@,
            r@ == head + dot_entities(export.entities@.take(i as int)),
        decreases export.entities@.len() - i,
    {
        let e = &export.entities[i];
        let ghost before = r@;
        push_str(&mut r, "\n");
        push_str(&mut r, "  \"");
        let name = escape_dot(e.name.as_str());
        push_str(&mut r, name.as_str());
        push_str(&mut r, "\" [label=\"");
        push_str(&mut r, name.as_str());
        push_str(&mut r, "\\n(");
        push_str(&mut r, e.entity_type.as_str());
        push_str(&mut r, ")\"];");
        proof {
            let es = export.entities@;
            assert(es.take(i as int + 1).drop_last() =~= es.take(i as int));
            assert(es.take(i as int + 1).last() == *e);
            assert(r@ =~= before + "\n"@ + entity_line(*e));
        }
        i = i + 1;
    }
    assert(export.entities@.take(export.entities@.len() as int) =~= export.entities@);
    let ghost mid = r@;
    let mut j: usize = 0;
    while j < export.edges.len()
        invariant
            j <= export.edges@.len(),
            r@ == mid + dot_edges(export.edges@.take(j as int)),
        decreases export.edges@.len() - j,
    {
        let e = &export.edges[j];
        let ghost before = r@;
        push_str(&mut r, "\n");
        push_str(&mut r, "  \"");
        let from = escape_dot(e.from.as_str());
        push_str(&mut r, from.as_str());
        push_str(&mut r, "\" -> \"");
        let to = escape_dot(e.to.as_str());
        push_str(&mut r, to.as_str());
        push_str(&mut r, "\" [label=\"");
        push_str(&mut r, e.relationship_type.as_str());
        push_str(&mut r, "\"];");
        proof {
            let rs = export.edges@;
            assert(rs.take(j as int + 1).drop_last() =~= rs.take(j as int));
            assert(rs.take(j as int + 1).last() == *e);
            assert(r@ =~= before + "\n"@ + edge_line(*e));
        }
        j = j + 1;
    }
    assert(export.edges@.take(export.edges@.len() as int) =~= export.edges@);
    push_str(&mut r, "\n}");
    assert(r@ =~= dot_text(*export));
    r
}


/// In an escaped string every double quote is preceded by a backslash, so an
/// escaped name cannot end the quoted DOT string early.
pub proof fn lemma_escaped_quotes_are_preceded(s: Seq<char>)
    ensures
        forall|i: int| 0 <= i < escape_dot_spec(s).len() && #[trigger] escape_dot_spec(s)[i] == '"'
            ==> i > 0 && escape_dot_spec(s)[i - 1] == '\\',
    decreases s.len(),
{
    if s.len() > 0 {
        let p = escape_dot_spec(s.drop_last());
        lemma_escaped_quotes_are_preceded(s.drop_last());
        let t = escape_char(s.last());
        let out = escape_dot_spec(s);
        assert(out == p + t);
        assert forall|i: int| 0 <= i < out.len() && #[trigger] out[i] == '"' implies i > 0 && out[i - 1] == '\\' by {
            if i < p.len() {
                assert(out[i] == p[i]);
                assert(out[i - 1] == p[i - 1]);
            } else {
                let k = i - p.len();
                assert(out[i] == t[k]);
                if s.last() == '"' {
                    assert(k == 1);
                    assert(out[i - 1] == t[0]);
                } else if s.last() == '\\' {
                    assert(t[k] == '\\');
                } else {
                    assert(t[k] == s.last());
                }
            }
        }
    }
}

/// `s` holds no `c`.
pub open spec fn lacks(s: Seq<char>, c: char) -> bool {
    forall|i: int| 0 <= i < s.len() ==> s[i] != c
}

/// Appending text without `c` extends the last piece.
proof fn lemma_split_append(a: Seq<char>, t: Seq<char>, c: char)
    requires
        lacks(t, c),
    ensures
        split_on(a + t, c) == split_on(a, c).update(split_on(a, c).len() - 1, split_on(a, c).last() + t),
    decreases t.len(),
{
    lemma_split_on_nonempty(a, c);
    let q = split_on(a, c);
    if t.len() == 0 {
        assert(a + t =~= a);
        assert(q.last() + t =~= q.last());
        assert(q.update(q.len() - 1, q.last()) =~= q);
    } else {
        let t1 = t.drop_last();
        let x = t.last();
        assert(lacks(t1, c));
        lemma_split_append(a, t1, c);
        assert((a + t).drop_last() =~= a + t1);
        assert((a + t).last() == x);
        let p = split_on(a + t1, c);
        assert(p.last() == q.last() + t1);
        assert(p.len() == q.len());
        assert(p.last().push(x) =~= q.last() + t);
        assert(p.update(p.len() - 1, p.last().push(x)) =~= q.update(q.len() - 1, q.last() + t));
    }
}

/// A `c` and then text without `c` start one more piece.
proof fn lemma_split_newline(a: Seq<char>, t: Seq<char>, c: char)
    requires
        lacks(t, c),
    ensures
        split_on(a + (seq![c] + t), c) == split_on(a, c).push(t),
{
    let b = a.push(c);
    assert(b.drop_last() =~= a);
    lemma_split_on_nonempty(b, c);
    lemma_split_append(b, t, c);
    assert(a + (seq![c] + t) =~= b + t);
    assert(Seq::<char>::empty() + t =~= t);
    assert(split_on(b, c).update(split_on(b, c).len() - 1, split_on(b, c).last() + t) =~= split_on(a, c).push(t));
}

proof fn lemma_lacks_add(a: Seq<char>, b: Seq<char>, c: char)
    requires
        lacks(a, c),
        lacks(b, c),
    ensures
        lacks(a + b, c),
{
    assert forall|i: int| 0 <= i < (a + b).len() implies (a + b)[i] != c by {
        if i >= a.len() {
            assert((a + b)[i] == b[i - a.len()]);
        }
    }
}

proof fn lemma_escape_lacks_newline(s: Seq<char>)
    requires
        lacks(s, '\n'),
    ensures
        lacks(escape_dot_spec(s), '\n'),
    decreases s.len(),
{
    if s.len() > 0 {
        assert(lacks(s.drop_last(), '\n'));
        lemma_escape_lacks_newline(s.drop_last());
        let x = s.last();
        assert(x == s[s.len() - 1]);
        assert(lacks(escape_char(x), '\n'));
        lemma_lacks_add(escape_dot_spec(s.drop_last()), escape_char(x), '\n');
    }
}

proof fn lemma_entity_line_one_line(e: Entity)
    requires
        lacks(e.name@, '\n'),
        lacks(e.entity_type@, '\n'),
    ensures
        lacks(entity_line(e), '\n'),
{
    reveal_strlit("  \"");
    reveal_strlit("\" [label=\"");
    reveal_strlit("\\n(");
    reveal_strlit(")\"];");
    lemma_escape_lacks_newline(e.name@);
    let n = escape_dot_spec(e.name@);
    assert(lacks("  \""@, '\n'));
    assert(lacks("\" [label=\""@, '\n'));
    assert(lacks("\\n("@, '\n'));
    assert(lacks(")\"];"@, '\n'));
    lemma_lacks_add("  \""@, n, '\n');
    lemma_lacks_add("  \""@ + n, "\" [label=\""@, '\n');
    lemma_lacks_add("  \""@ + n + "\" [label=\""@, n, '\n');
    lemma_lacks_add("  \""@ + n + "\" [label=\""@ + n, "\\n("@, '\n');
    lemma_lacks_add("  \""@ + n + "\" [label=\""@ + n + "\\n("@, e.entity_type@, '\n');
    lemma_lacks_add("  \""@ + n + "\" [label=\""@ + n + "\\n("@ + e.entity_type@, ")\"];"@, '\n');
}

proof fn lemma_edge_line_one_line(r: Relationship)
    requires
        lacks(r.from@, '\n'),
        lacks(r.to@, '\n'),
        lacks(r.relationship_type@, '\n'),
    ensures
        lacks(edge_line(r), '\n'),
{
    reveal_strlit("  \"");
    reveal_strlit("\" -> \"");
    reveal_strlit("\" [label=\"");
    reveal_strlit("\"];");
    lemma_escape_lacks_newline(r.from@);
    lemma_escape_lacks_newline(r.to@);
    let f = escape_dot_spec(r.from@);
    let t = escape_dot_spec(r.to@);
    assert(lacks("  \""@, '\n'));
    assert(lacks("\" -> \""@, '\n'));
    assert(lacks("\" [label=\""@, '\n'));
    assert(lacks("\"];"@, '\n'));
    lemma_lacks_add("  \""@, f, '\n');
    lemma_lacks_add("  \""@ + f, "\" -> \""@, '\n');
    lemma_lacks_add("  \""@ + f + "\" -> \""@, t, '\n');
    lemma_lacks_add("  \""@ + f + "\" -> \""@ + t, "\" [label=\""@, '\n');
    lemma_lacks_add("  \""@ + f + "\" -> \""@ + t + "\" [label=\""@, r.relationship_type@, '\n');
    lemma_lacks_add("  \""@ + f + "\" -> \""@ + t + "\" [label=\""@ + r.relationship_type@, "\"];"@, '\n');
}

/// No name, type or endpoint of the export holds a line break.
pub open spec fn single_line_fields(x: GraphExport) -> bool {
    &&& forall|i: int| 0 <= i < x.entities@.len() ==> lacks((#[trigger] x.entities@[i]).name@, '\n') && lacks(x.entities@[i].entity_type@, '\n')
    &&& forall|j: int| 0 <= j < x.edges@.len() ==> lacks((#[trigger] x.edges@[j]).from@, '\n') && lacks(x.edges@[j].to@, '\n')
        && lacks(x.edges@[j].relationship_type@, '\n')
}

/// The lines of a DOT export: the header, one line per entity, one per relationship, the closing brace.
pub open spec fn dot_lines(x: GraphExport) -> Seq<Seq<char>> {
    seq!["digraph knowledge {"@] + x.entities@.map_values(|e: Entity| entity_line(e)) + x.edges@.map_values(|r: Relationship| edge_line(r)) + seq!["}"@]
}

proof fn lemma_split_entities(h: Seq<char>, lines: Seq<Seq<char>>, es: Seq<Entity>)
    requires
        split_on(h, '\n') == lines,
        forall|i: int| 0 <= i < es.len() ==> lacks((#[trigger] es[i]).name@, '\n') && lacks(es[i].entity_type@, '\n'),
    ensures
        split_on(h + dot_entities(es), '\n') == lines + es.map_values(|e: Entity| entity_line(e)),
    decreases es.len(),
{
    if es.len() == 0 {
        assert(h + dot_entities(es) =~= h);
        assert(lines + es.map_values(|e: Entity| entity_line(e)) =~= lines);
    } else {
        let d = es.drop_last();
        lemma_split_entities(h, lines, d);
        let e = es.last();
        assert(e == es[es.len() - 1]);
        lemma_entity_line_one_line(e);
        reveal_strlit("\n");
        assert("\n"@ =~= seq!['\n']);
        lemma_split_newline(h + dot_entities(d), entity_line(e), '\n');
        assert(h + dot_entities(es) =~= (h + dot_entities(d)) + (seq!['\n'] + entity_line(e)));
        assert(lines + es.map_values(|e: Entity| entity_line(e))
            =~= (lines + d.map_values(|e: Entity| entity_line(e))).push(entity_line(e)));
    }
}

proof fn lemma_split_edges(h: Seq<char>, lines: Seq<Seq<char>>, rs: Seq<Relationship>)
    requires
        split_on(h, '\n') == lines,
        forall|j: int| 0 <= j < rs.len() ==> lacks((#[trigger] rs[j]).from@, '\n') && lacks(rs[j].to@, '\n')
            && lacks(rs[j].relationship_type@, '\n'),
    ensures
        split_on(h + dot_edges(rs), '\n') == lines + rs.map_values(|r: Relationship| edge_line(r)),
    decreases rs.len(),
{
    if rs.len() == 0 {
        assert(h + dot_edges(rs) =~= h);
        assert(lines + rs.map_values(|r: Relationship| edge_line(r)) =~= lines);
    } else {
        let d = rs.drop_last();
        lemma_split_edges(h, lines, d);
        let r = rs.last();
        assert(r == rs[rs.len() - 1]);
        lemma_edge_line_one_line(r);
        reveal_strlit("\n");
        assert("\n"@ =~= seq!['\n']);
        lemma_split_newline(h + dot_edges(d), edge_line(r), '\n');
        assert(h + dot_edges(rs) =~= (h + dot_edges(d)) + (seq!['\n'] + edge_line(r)));
        assert(lines + rs.map_values(|r: Relationship| edge_line(r))
            =~= (lines + d.map_values(|r: Relationship| edge_line(r))).push(edge_line(r)));
    }
}

/// When no field holds a line break, the DOT text of an export has one line
/// for the header, one per entity and one per relationship, in order, and
/// one for the closing brace.
pub proof fn lemma_dot_lines(x: GraphExport)
    requires
        single_line_fields(x),
    ensures
        split_on(dot_text(x), '\n') == dot_lines(x),
        split_on(dot_text(x), '\n').len() == x.entities@.len() + x.edges@.len() + 2,
{
    let h = "digraph knowledge {"@;
    reveal_strlit("digraph knowledge {");
    reveal_strlit("\n}");
    reveal_strlit("}");
    assert(lacks(h, '\n'));
    lemma_split_append(Seq::<char>::empty(), h, '\n');
    assert(Seq::<char>::empty() + h =~= h);
    assert(split_on(Seq::<char>::empty(), '\n') =~= seq![Seq::<char>::empty()]);
    assert(Seq::<char>::empty() + h =~= h);
    assert(split_on(h, '\n') =~= seq![h]);
    lemma_split_entities(h, seq![h], x.entities@);
    let he = h + dot_entities(x.entities@);
    let le = seq![h] + x.entities@.map_values(|e: Entity| entity_line(e));
    lemma_split_edges(he, le, x.edges@);
    let hr = he + dot_edges(x.edges@);
    let lr = le + x.edges@.map_values(|r: Relationship| edge_line(r));
    assert("}"@ =~= seq!['}']);
    assert(lacks("}"@, '\n'));
    lemma_split_newline(hr, "}"@, '\n');
    assert("\n}"@ =~= seq!['\n'] + "}"@);
    assert(dot_text(x) =~= hr + (seq!['\n'] + "}"@));
    assert(lr.push("}"@) =~= dot_lines(x));
}

} // verus!
