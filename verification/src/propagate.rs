//! Propagation of languages along the reference graph, from each root chunk
//! to the chunks it reaches.

use vstd::prelude::*;
use vstd::string::*;
use crate::language::{
    fresh_path, has_lang, linked, propagated, reached, root_lang, root_language, same_text,
    is_root, LanguageMap, ReferenceGraph,
};
use crate::text::{
    classify, contains_line, is_close, is_opener, is_reference, lemma_marker_shapes, opener_name,
    reference_name, text_lines, trimmed, LineKind,
};

verus! {

/// Every chunk reaches itself.
pub proof fn lemma_reach_self(
    g: Seq<(Seq<char>, Seq<char>)>,
    m: Map<Seq<char>, Seq<char>>,
    lang: Seq<char>,
    parent: Seq<char>,
)
    ensures
        reached(g, m, lang, parent, parent),
{
    let p = seq![parent];
    assert(fresh_path(g, m, lang, p) && p[0] == parent && p.last() == parent);
}

/// What is reached reaches on along an edge to a chunk without the language.
pub proof fn lemma_reach_step(
    g: Seq<(Seq<char>, Seq<char>)>,
    m: Map<Seq<char>, Seq<char>>,
    lang: Seq<char>,
    parent: Seq<char>,
    n: Seq<char>,
    x: Seq<char>,
)
    requires
        reached(g, m, lang, parent, n),
        g.contains((n, x)),
        !has_lang(m, x, lang),
    ensures
        reached(g, m, lang, parent, x),
{
    let q = choose|q: Seq<Seq<char>>| #[trigger]
        fresh_path(g, m, lang, q) && q[0] == parent && q.last() == n;
    let p = q.push(x);
    assert forall|i: int| 0 <= i < p.len() - 1 implies #[trigger] linked(g, p, i) by {
        if i < q.len() - 1 {
            assert(linked(g, q, i));
        }
    }
    assert forall|i: int| 1 <= i < p.len() implies !has_lang(m, #[trigger] p[i], lang) by {
        if i < q.len() {
            assert(p[i] == q[i]);
        }
    }
    assert(fresh_path(g, m, lang, p) && p[0] == parent && p.last() == x);
}

proof fn lemma_reach_prepend(
    g: Seq<(Seq<char>, Seq<char>)>,
    m0: Map<Seq<char>, Seq<char>>,
    mi: Map<Seq<char>, Seq<char>>,
    lang: Seq<char>,
    parent: Seq<char>,
    child: Seq<char>,
    n: Seq<char>,
)
    requires
        g.contains((parent, child)),
        forall|x: Seq<char>| has_lang(m0, x, lang) ==> has_lang(mi, x, lang),
        !has_lang(mi, child, lang),
        reached(g, mi, lang, child, n),
    ensures
        reached(g, m0, lang, parent, n),
{
    let q = choose|q: Seq<Seq<char>>| #[trigger]
        fresh_path(g, mi, lang, q) && q[0] == child && q.last() == n;
    let p = seq![parent] + q;
    assert forall|i: int| 0 <= i < p.len() - 1 implies #[trigger] linked(g, p, i) by {
        if i >= 1 {
            assert(linked(g, q, i - 1));
            assert(p[i] == q[i - 1] && p[i + 1] == q[i]);
        } else {
            assert(p[0] == parent && p[1] == q[0]);
        }
    }
    assert forall|i: int| 1 <= i < p.len() implies !has_lang(m0, #[trigger] p[i], lang) by {
        assert(p[i] == q[i - 1]);
        if i >= 2 {
            assert(!has_lang(mi, q[i - 1], lang));
        }
    }
    assert(fresh_path(g, m0, lang, p) && p[0] == parent && p.last() == n);
}

/// What a propagation leaves: the start has the language; nothing loses its
/// assignment, and only chunks that are reached change theirs; and every
/// edge out of a reached chunk leads to a chunk with the language.
pub proof fn lemma_propagated(
    g: Seq<(Seq<char>, Seq<char>)>,
    a: Map<Seq<char>, Seq<char>>,
    c: Seq<char>,
    lang: Seq<char>,
)
    ensures
        has_lang(propagated(g, a, c, lang), c, lang),
        forall|n: Seq<char>| a.contains_key(n) ==> propagated(g, a, c, lang).contains_key(n),
        forall|n: Seq<char>| has_lang(a, n, lang) ==> has_lang(propagated(g, a, c, lang), n, lang),
        forall|n: Seq<char>|
            propagated(g, a, c, lang).contains_key(n) && !has_lang(
                propagated(g, a, c, lang),
                n,
                lang,
            ) ==> a.contains_key(n) && a[n] == propagated(g, a, c, lang)[n],
        forall|n: Seq<char>|
            has_lang(propagated(g, a, c, lang), n, lang) && !has_lang(a, n, lang) ==> reached(
                g,
                a,
                lang,
                c,
                n,
            ),
        forall|n: Seq<char>, x: Seq<char>|
            reached(g, a, lang, c, n) && g.contains((n, x)) ==> has_lang(
                propagated(g, a, c, lang),
                x,
                lang,
            ),
{
    let b = propagated(g, a, c, lang);
    lemma_reach_self(g, a, lang, c);
    assert forall|n: Seq<char>, x: Seq<char>|
        reached(g, a, lang, c, n) && g.contains((n, x)) implies has_lang(b, x, lang) by {
        if !has_lang(a, x, lang) {
            lemma_reach_step(g, a, lang, c, n, x);
        }
    }
}

/// How far a propagation from `parent` has come, from `m0` to `m`, when the
/// edges before `upto` have been looked at.
pub open spec fn settled(
    g: Seq<(Seq<char>, Seq<char>)>,
    m0: Map<Seq<char>, Seq<char>>,
    m: Map<Seq<char>, Seq<char>>,
    parent: Seq<char>,
    lang: Seq<char>,
    upto: int,
) -> bool {
    &&& has_lang(m, parent, lang)
    &&& forall|n: Seq<char>| m0.contains_key(n) ==> m.contains_key(n)
    &&& forall|n: Seq<char>| has_lang(m0, n, lang) ==> has_lang(m, n, lang)
    &&& forall|n: Seq<char>|
        m.contains_key(n) && !has_lang(m, n, lang) ==> m0.contains_key(n) && m0[n] == m[n]
    &&& forall|n: Seq<char>|
        has_lang(m, n, lang) && !has_lang(m0, n, lang) ==> reached(g, m0, lang, parent, n)
    &&& forall|n: Seq<char>, x: Seq<char>|
        n != parent && has_lang(m, n, lang) && !has_lang(m0, n, lang) && g.contains((n, x))
            ==> has_lang(m, x, lang)
    &&& forall|k: int|
        0 <= k < upto && k < g.len() && (#[trigger] g[k]).0 == parent ==> has_lang(m, g[k].1, lang)
}

proof fn lemma_settled_start(
    g: Seq<(Seq<char>, Seq<char>)>,
    m0: Map<Seq<char>, Seq<char>>,
    parent: Seq<char>,
    lang: Seq<char>,
)
    ensures
        settled(g, m0, m0.insert(parent, lang), parent, lang, 0),
{
    lemma_reach_self(g, m0, lang, parent);
}

proof fn lemma_settled_step(
    g: Seq<(Seq<char>, Seq<char>)>,
    m0: Map<Seq<char>, Seq<char>>,
    m: Map<Seq<char>, Seq<char>>,
    parent: Seq<char>,
    lang: Seq<char>,
    i: int,
)
    requires
        settled(g, m0, m, parent, lang, i),
        0 <= i < g.len(),
        g[i].0 == parent,
        !has_lang(m, g[i].1, lang),
    ensures
        settled(g, m0, propagated(g, m, g[i].1, lang), parent, lang, i + 1),
{
    let child = g[i].1;
    let b = propagated(g, m, child, lang);
    lemma_propagated(g, m, child, lang);
    lemma_reach_self(g, m, lang, child);
    assert(g[i] == (parent, child));
    assert(g.contains((parent, child)));
    assert forall|n: Seq<char>| has_lang(b, n, lang) && !has_lang(m0, n, lang) implies reached(
        g,
        m0,
        lang,
        parent,
        n,
    ) by {
        if !has_lang(m, n, lang) {
            lemma_reach_prepend(g, m0, m, lang, parent, child, n);
        }
    }
    assert forall|n: Seq<char>, x: Seq<char>|
        n != parent && has_lang(b, n, lang) && !has_lang(m0, n, lang) && g.contains(
            (n, x),
        ) implies has_lang(b, x, lang) by {
        if has_lang(m, n, lang) {
            assert(has_lang(m, x, lang));
        } else {
            assert(reached(g, m, lang, child, n));
        }
    }
    assert forall|k: int|
        0 <= k < i + 1 && k < g.len() && (#[trigger] g[k]).0 == parent implies has_lang(
        b,
        g[k].1,
        lang,
    ) by {
        if k < i {
            assert(has_lang(m, g[k].1, lang));
        }
    }
}

proof fn lemma_path_covered(
    g: Seq<(Seq<char>, Seq<char>)>,
    m0: Map<Seq<char>, Seq<char>>,
    m: Map<Seq<char>, Seq<char>>,
    parent: Seq<char>,
    lang: Seq<char>,
    path: Seq<Seq<char>>,
)
    requires
        settled(g, m0, m, parent, lang, g.len() as int),
        fresh_path(g, m0, lang, path),
        path[0] == parent,
    ensures
        has_lang(m, path.last(), lang),
    decreases path.len(),
{
    if path.len() > 1 {
        let q = path.drop_last();
        let n = q.last();
        let x = path.last();
        assert forall|i: int| 0 <= i < q.len() - 1 implies #[trigger] linked(g, q, i) by {
            assert(linked(g, path, i));
        }
        assert forall|i: int| 1 <= i < q.len() implies !has_lang(m0, #[trigger] q[i], lang) by {
            assert(q[i] == path[i]);
        }
        lemma_path_covered(g, m0, m, parent, lang, q);
        assert(linked(g, path, path.len() - 2));
        assert(g.contains((n, x)));
        if n == parent {
            let k = choose|k: int| 0 <= k < g.len() && g[k] == (n, x);
            assert(g[k].0 == parent);
        } else {
            assert(n == path[path.len() - 2]);
            assert(!has_lang(m0, n, lang));
        }
    }
}

proof fn lemma_settled_done(
    g: Seq<(Seq<char>, Seq<char>)>,
    m0: Map<Seq<char>, Seq<char>>,
    m: Map<Seq<char>, Seq<char>>,
    parent: Seq<char>,
    lang: Seq<char>,
)
    requires
        settled(g, m0, m, parent, lang, g.len() as int),
    ensures
        m =~= propagated(g, m0, parent, lang),
{
    let b = propagated(g, m0, parent, lang);
    assert forall|n: Seq<char>| reached(g, m0, lang, parent, n) implies has_lang(m, n, lang) by {
        let p = choose|p: Seq<Seq<char>>| #[trigger]
            fresh_path(g, m0, lang, p) && p[0] == parent && p.last() == n;
        lemma_path_covered(g, m0, m, parent, lang, p);
    }
    assert forall|n: Seq<char>| #[trigger] m.dom().contains(n) == b.dom().contains(n) by {
        if reached(g, m0, lang, parent, n) {
            assert(has_lang(m, n, lang));
        }
        if m.contains_key(n) && has_lang(m, n, lang) && !has_lang(m0, n, lang) {
            assert(reached(g, m0, lang, parent, n));
        }
    }
    assert forall|n: Seq<char>| m.dom().contains(n) implies #[trigger] m[n] == b[n] by {
        if has_lang(m, n, lang) {
            if !has_lang(m0, n, lang) {
                assert(reached(g, m0, lang, parent, n));
            }
        } else {
            assert(!reached(g, m0, lang, parent, n));
        }
    }
}

/// The names that references refer to.
pub open spec fn referred(g: Seq<(Seq<char>, Seq<char>)>) -> Set<Seq<char>> {
    g.map_values(|e: (Seq<char>, Seq<char>)| e.1).to_set()
}

/// The names referred to that do not have the language `lang` in `m`.
pub open spec fn unsettled(
    g: Seq<(Seq<char>, Seq<char>)>,
    m: Map<Seq<char>, Seq<char>>,
    lang: Seq<char>,
) -> Set<Seq<char>> {
    referred(g).difference(Set::new(|n: Seq<char>| has_lang(m, n, lang)))
}

/// What bounds the depth of a propagation from `parent`.
pub open spec fn work_left(
    g: Seq<(Seq<char>, Seq<char>)>,
    m: Map<Seq<char>, Seq<char>>,
    parent: Seq<char>,
    lang: Seq<char>,
) -> nat {
    unsettled(g, m, lang).len() + if unsettled(g, m, lang).contains(parent) {
        0nat
    } else {
        1nat
    }
}

proof fn lemma_work_left(
    g: Seq<(Seq<char>, Seq<char>)>,
    m0: Map<Seq<char>, Seq<char>>,
    m: Map<Seq<char>, Seq<char>>,
    parent: Seq<char>,
    lang: Seq<char>,
    i: int,
)
    requires
        forall|n: Seq<char>| has_lang(m0, n, lang) ==> has_lang(m, n, lang),
        has_lang(m, parent, lang),
        0 <= i < g.len(),
        !has_lang(m, g[i].1, lang),
    ensures
        work_left(g, m, g[i].1, lang) < work_left(g, m0, parent, lang),
{
    let child = g[i].1;
    let names = g.map_values(|e: (Seq<char>, Seq<char>)| e.1);
    vstd::seq_lib::seq_to_set_is_finite(names);
    assert(names[i] == child);
    assert(referred(g).contains(child));
    let before = unsettled(g, m0, lang);
    let now = unsettled(g, m, lang);
    assert(now.contains(child));
    assert(now.subset_of(before.remove(parent)));
    vstd::set_lib::lemma_len_subset(now, before.remove(parent));
}

/// Assigns `lang` to `parent` and to every chunk that is reached from it
/// through chunks that do not have `lang` yet. A chunk that has another
/// language is assigned `lang` in its place.
pub fn propagate_lang(parent: &str, lang: &str, relations: &ReferenceGraph, map: &mut LanguageMap)
    ensures
        final(map)@ == propagated(relations@, old(map)@, parent@, lang@),
    decreases work_left(relations@, old(map)@, parent@, lang@),
{
    let ghost m0 = map@;
    let ghost g = relations@;
    map.insert(parent, lang);
    proof {
        lemma_settled_start(g, m0, parent@, lang@);
    }
    let n: usize = relations.len();
    let mut i: usize = 0;
    while i < n
        invariant
            g == relations@,
            m0 == old(map)@,
            n == g.len(),
            i <= n,
            settled(g, m0, map@, parent@, lang@, i as int),
        decreases n - i,
    {
        if same_text(relations.parent_at(i), parent) {
            let child = relations.child_at(i);
            if !map.has(child.as_str(), lang) {
                proof {
                    lemma_work_left(g, m0, map@, parent@, lang@, i as int);
                    lemma_settled_step(g, m0, map@, parent@, lang@, i as int);
                }
                propagate_lang(child.as_str(), lang, relations, map);
            }
        }
        i += 1;
    }
    proof {
        lemma_settled_done(g, m0, map@, parent@, lang@);
    }
}

/// What one pass over a document finds: the roots in the order in which
/// they were first opened, the references in source order, the chunk that
/// was opened last, and whether it is still open.
pub ghost struct ScanState {
    pub roots: Seq<Seq<char>>,
    pub edges: Seq<(Seq<char>, Seq<char>)>,
    pub current: Seq<char>,
    pub in_block: bool,
}

/// The scan after one more line. An opener opens its chunk wherever it
/// stands, and makes it a root if its name has a `.`. Inside a chunk `@`
/// closes it, and a reference line is an edge from the chunk to the name.
pub open spec fn scan_step(st: ScanState, line: Seq<char>) -> ScanState {
    let t = trimmed(line);
    if is_opener(t) {
        let name = opener_name(t);
        ScanState {
            roots: if is_root(name) && !st.roots.contains(name) {
                st.roots.push(name)
            } else {
                st.roots
            },
            edges: st.edges,
            current: name,
            in_block: true,
        }
    } else if st.in_block && is_close(t) {
        ScanState { roots: st.roots, edges: st.edges, current: st.current, in_block: false }
    } else if st.in_block && is_reference(t) {
        ScanState {
            roots: st.roots,
            edges: st.edges.push((st.current, reference_name(t))),
            current: st.current,
            in_block: true,
        }
    } else {
        st
    }
}

/// The scan after all of `lines`.
pub open spec fn scan_lines(lines: Seq<Seq<char>>) -> ScanState
    decreases lines.len(),
{
    if lines.len() == 0 {
        ScanState { roots: Seq::empty(), edges: Seq::empty(), current: Seq::empty(), in_block: false }
    } else {
        scan_step(scan_lines(lines.drop_last()), lines.last())
    }
}

/// The roots and the references of a document.
pub struct Scan {
    pub roots: Vec<String>,
    pub graph: ReferenceGraph,
}

/// Finds the roots and the references of a document, given as its lines.
pub fn scan_document(lines: &Vec<String>) -> (scan: Scan)
    ensures
        text_lines(scan.roots@) == scan_lines(text_lines(lines@)).roots,
        scan.graph@ == scan_lines(text_lines(lines@)).edges,
{
    let mut roots: Vec<String> = Vec::new();
    let mut graph = ReferenceGraph::new();
    let mut current = String::new();
    let mut in_block = false;
    let ghost all = text_lines(lines@);
    let mut i: usize = 0;
    proof {
        assert(text_lines(roots@) =~= Seq::<Seq<char>>::empty());
    }
    while i < lines.len()
        invariant
            i <= lines@.len(),
            all == text_lines(lines@),
            text_lines(roots@) == scan_lines(all.take(i as int)).roots,
            graph@ == scan_lines(all.take(i as int)).edges,
            current@ == scan_lines(all.take(i as int)).current,
            in_block == scan_lines(all.take(i as int)).in_block,
        decreases lines@.len() - i,
    {
        proof {
            assert(all.take(i + 1).drop_last() =~= all.take(i as int));
            assert(all.take(i + 1).last() == lines@[i as int]@);
            lemma_marker_shapes(trimmed(lines@[i as int]@));
        }
        let ghost before = text_lines(roots@);
        match classify(lines[i].as_str()) {
            LineKind::Opener(name) => {
                if root_language(name.as_str()).is_some() && !contains_line(&roots, name.as_str()) {
                    roots.push(name.clone());
                    proof {
                        assert(text_lines(roots@) =~= before.push(name@));
                    }
                }
                current = name;
                in_block = true;
            },
            LineKind::Close => {
                in_block = false;
            },
            LineKind::Reference(name, _) => {
                if in_block {
                    graph.add_edge(current.as_str(), name.as_str());
                }
            },
            LineKind::Text => {},
        }
        i += 1;
    }
    proof {
        assert(all.take(i as int) =~= all);
    }
    Scan { roots, graph }
}

/// The assignment after the language of each of `roots` was propagated, one
/// root after the other in the order given, starting from no assignment.
pub open spec fn assigned(g: Seq<(Seq<char>, Seq<char>)>, roots: Seq<Seq<char>>) -> Map<
    Seq<char>,
    Seq<char>,
>
    decreases roots.len(),
{
    if roots.len() == 0 {
        Map::empty()
    } else {
        propagated(g, assigned(g, roots.drop_last()), roots.last(), root_lang(roots.last()))
    }
}

/// The languages of the chunks of a document, given as its lines: each
/// root's language is that of its extension, and it is propagated along the
/// references, the roots taken in the order in which the document opens
/// them first.
pub fn build_language_map(lines: &Vec<String>) -> (map: LanguageMap)
    ensures
        map@ == assigned(
            scan_lines(text_lines(lines@)).edges,
            scan_lines(text_lines(lines@)).roots,
        ),
{
    let scan = scan_document(lines);
    let mut map = LanguageMap::new();
    let ghost roots = text_lines(scan.roots@);
    let ghost g = scan.graph@;
    let mut i: usize = 0;
    while i < scan.roots.len()
        invariant
            i <= scan.roots@.len(),
            roots == text_lines(scan.roots@),
            g == scan.graph@,
            map@ == assigned(g, roots.take(i as int)),
        decreases scan.roots@.len() - i,
    {
        proof {
            assert(roots.take(i + 1).drop_last() =~= roots.take(i as int));
            assert(roots.take(i + 1).last() == scan.roots@[i as int]@);
            reveal_strlit("");
            assert(""@ =~= Seq::<char>::empty());
        }
        let root = scan.roots[i].as_str();
        let lang = match root_language(root) {
            Some(l) => l,
            None => "",
        };
        propagate_lang(root, lang, &scan.graph, &mut map);
        i += 1;
    }
    proof {
        assert(roots.take(i as int) =~= roots);
    }
    map
}

/// A chunk that a root refers to directly has the root's language once the
/// root's language was propagated.
pub proof fn lemma_child_gets_language(
    g: Seq<(Seq<char>, Seq<char>)>,
    m: Map<Seq<char>, Seq<char>>,
    root: Seq<char>,
    child: Seq<char>,
    lang: Seq<char>,
)
    requires
        g.contains((root, child)),
    ensures
        has_lang(propagated(g, m, root, lang), root, lang),
        has_lang(propagated(g, m, root, lang), child, lang),
{
    lemma_propagated(g, m, root, lang);
    lemma_reach_self(g, m, lang, root);
}

/// Every chunk on a path of references from the root is reached when
/// nothing was assigned before, whatever the graph: cycles too.
pub proof fn lemma_first_root_reaches_all(
    g: Seq<(Seq<char>, Seq<char>)>,
    root: Seq<char>,
    lang: Seq<char>,
    path: Seq<Seq<char>>,
)
    requires
        path.len() >= 1,
        path[0] == root,
        forall|i: int| 0 <= i < path.len() - 1 ==> #[trigger] linked(g, path, i),
    ensures
        has_lang(propagated(g, Map::empty(), root, lang), path.last(), lang),
{
    let none = Map::<Seq<char>, Seq<char>>::empty();
    assert(fresh_path(g, none, lang, path));
    assert(reached(g, none, lang, root, path.last()));
}

/// A chunk that no path of references from the root leads to keeps what it
/// had when the root's language is propagated: its language if it had one,
/// and none if it had none.
pub proof fn lemma_unrelated_keeps_language(
    g: Seq<(Seq<char>, Seq<char>)>,
    m: Map<Seq<char>, Seq<char>>,
    root: Seq<char>,
    lang: Seq<char>,
    other: Seq<char>,
)
    requires
        !reached(g, m, lang, root, other),
    ensures
        propagated(g, m, root, lang).contains_key(other) == m.contains_key(other),
        m.contains_key(other) ==> propagated(g, m, root, lang)[other] == m[other],
{
}

} // verus!
