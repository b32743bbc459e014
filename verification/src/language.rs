//! Languages of chunks: the table from file extensions to language tags, the
//! reference graph of a document, and the propagation of each root chunk's
//! language to the chunks it reaches.

use vstd::prelude::*;
use vstd::string::*;

verus! {

/// The language tag of a file extension; empty for one that is not known.
pub open spec fn lang_of_ext(ext: Seq<char>) -> Seq<char> {
    if ext == "v"@ || ext == "vh"@ || ext == "sv"@ {
        "verilog"@
    } else if ext == "rs"@ {
        "rust"@
    } else if ext == "c"@ || ext == "h"@ {
        "c"@
    } else if ext == "cpp"@ || ext == "hpp"@ {
        "cpp"@
    } else if ext == "py"@ {
        "python"@
    } else if ext == "js"@ {
        "javascript"@
    } else if ext == "sh"@ {
        "bash"@
    } else if ext == "typ"@ {
        "typst"@
    } else {
        ""@
    }
}

pub(crate) fn same_text(a: &String, b: &str) -> (r: bool)
    ensures
        r == (a@ == b@),
{
    *a == String::from_str(b)
}

/// The language tag of the file extension `ext`.
pub fn get_lang_from_ext(ext: &str) -> (lang: &'static str)
    ensures
        lang@ == lang_of_ext(ext@),
{
    let e = String::from_str(ext);
    if same_text(&e, "v") || same_text(&e, "vh") || same_text(&e, "sv") {
        "verilog"
    } else if same_text(&e, "rs") {
        "rust"
    } else if same_text(&e, "c") || same_text(&e, "h") {
        "c"
    } else if same_text(&e, "cpp") || same_text(&e, "hpp") {
        "cpp"
    } else if same_text(&e, "py") {
        "python"
    } else if same_text(&e, "js") {
        "javascript"
    } else if same_text(&e, "sh") {
        "bash"
    } else if same_text(&e, "typ") {
        "typst"
    } else {
        ""
    }
}

/// One past the index of the last `.` before `j` in `s` (zero if there is
/// none).
pub open spec fn after_last_dot(s: Seq<char>, j: int) -> int
    decreases j,
{
    if 0 < j <= s.len() && s[j - 1] != '.' {
        after_last_dot(s, j - 1)
    } else {
        j
    }
}

/// What follows the last `.` of a name, if the name has a `.`.
pub open spec fn extension(name: Seq<char>) -> Option<Seq<char>> {
    let p = after_last_dot(name, name.len() as int);
    if p > 0 {
        Some(name.subrange(p, name.len() as int))
    } else {
        None
    }
}

/// A name with a `.` is a root.
pub open spec fn is_root(name: Seq<char>) -> bool {
    extension(name).is_some()
}

/// The language of a root: that of its extension.
pub open spec fn root_lang(name: Seq<char>) -> Seq<char> {
    match extension(name) {
        Some(ext) => lang_of_ext(ext),
        None => Seq::empty(),
    }
}

/// `after_last_dot` stays within `s`, stops behind a `.`, and passes none.
pub proof fn lemma_after_last_dot(s: Seq<char>, j: int)
    requires
        0 <= j <= s.len(),
    ensures
        0 <= after_last_dot(s, j) <= j,
        after_last_dot(s, j) > 0 ==> s[after_last_dot(s, j) - 1] == '.',
        forall|k: int| after_last_dot(s, j) <= k < j ==> #[trigger] s[k] != '.',
    decreases j,
{
    if 0 < j && s[j - 1] != '.' {
        lemma_after_last_dot(s, j - 1);
    }
}

/// The language of the root `name`, or nothing if `name` has no `.`.
pub fn root_language(name: &str) -> (r: Option<&'static str>)
    ensures
        match r {
            Some(lang) => is_root(name@) && lang@ == root_lang(name@),
            None => !is_root(name@),
        },
{
    let n: usize = name.unicode_len();
    let mut p: usize = n;
    while p > 0 && name.get_char(p - 1) != '.'
        invariant
            n == name@.len(),
            p <= n,
            after_last_dot(name@, p as int) == after_last_dot(name@, n as int),
        decreases p,
    {
        p -= 1;
    }
    if p > 0 {
        Some(get_lang_from_ext(name.substring_char(p, n)))
    } else {
        None
    }
}

struct Assignment {
    name: String,
    lang: String,
}

/// The language assigned to each chunk, by name. Names are kept in the
/// order in which they were first assigned, and no name occurs twice.
pub struct LanguageMap {
    entries: Vec<Assignment>,
}

impl View for LanguageMap {
    type V = Map<Seq<char>, Seq<char>>;

    closed spec fn view(&self) -> Map<Seq<char>, Seq<char>> {
        Map::new(
            |n: Seq<char>| self.keys().contains(n),
            |n: Seq<char>| self.entries@[self.position(n)].lang@,
        )
    }
}

impl LanguageMap {
    /// The names that have a language, in order of first assignment.
    pub closed spec fn keys(&self) -> Seq<Seq<char>> {
        self.entries@.map_values(|e: Assignment| e.name@)
    }

    /// No name occurs twice.
    #[verifier::type_invariant]
    pub closed spec fn wf(&self) -> bool {
        self.keys().no_duplicates()
    }

    /// Where in `keys` the name `n` stands.
    pub closed spec fn position(&self, n: Seq<char>) -> int {
        choose|i: int| 0 <= i < self.keys().len() && self.keys()[i] == n
    }

    proof fn lemma_position(&self, i: int)
        requires
            self.wf(),
            0 <= i < self.keys().len(),
        ensures
            self.position(self.keys()[i]) == i,
            self@.contains_key(self.keys()[i]),
            self@[self.keys()[i]] == self.entries@[i].lang@,
    {
    }

    /// A map that assigns nothing.
    pub fn new() -> (m: LanguageMap)
        ensures
            m@ == Map::<Seq<char>, Seq<char>>::empty(),
    {
        let m = LanguageMap { entries: Vec::new() };
        assert(m@ =~= Map::<Seq<char>, Seq<char>>::empty());
        m
    }

    fn find(&self, name: &str) -> (r: Option<usize>)
        ensures
            match r {
                Some(i) => i < self.keys().len() && self.keys()[i as int] == name@,
                None => !self.keys().contains(name@),
            },
    {
        let mut i: usize = 0;
        while i < self.entries.len()
            invariant
                i <= self.entries@.len(),
                forall|j: int| 0 <= j < i ==> self.keys()[j] != name@,
            decreases self.entries@.len() - i,
        {
            if same_text(&self.entries[i].name, name) {
                return Some(i);
            }
            i += 1;
        }
        None
    }

    /// The language assigned to `name`, if one is.
    pub fn get(&self, name: &str) -> (r: Option<&str>)
        ensures
            match r {
                Some(lang) => self@.contains_key(name@) && lang@ == self@[name@],
                None => !self@.contains_key(name@),
            },
    {
        match self.find(name) {
            Some(i) => {
                proof {
                    use_type_invariant(self);
                    self.lemma_position(i as int);
                }
                Some(self.entries[i].lang.as_str())
            },
            None => None,
        }
    }

    /// Whether `name` is assigned exactly the language `lang`.
    pub fn has(&self, name: &str, lang: &str) -> (r: bool)
        ensures
            r == has_lang(self@, name@, lang@),
    {
        match self.find(name) {
            Some(i) => {
                proof {
                    use_type_invariant(self);
                    self.lemma_position(i as int);
                }
                same_text(&self.entries[i].lang, lang)
            },
            None => false,
        }
    }

    /// Assigns `lang` to `name`, in place of what it had.
    pub fn insert(&mut self, name: &str, lang: &str)
        ensures
            final(self)@ == old(self)@.insert(name@, lang@),
    {
        let ghost before = *self;
        proof {
            use_type_invariant(&*self);
        }
        let found = self.find(name);
        let mut entries: Vec<Assignment> = Vec::new();
        core::mem::swap(&mut self.entries, &mut entries);
        let fresh = Assignment { name: String::from_str(name), lang: String::from_str(lang) };
        match found {
            Some(i) => {
                entries.remove(i);
                entries.insert(i, fresh);
            },
            None => {
                entries.push(fresh);
            },
        }
        let ghost after = LanguageMap { entries };
        proof {
            match found {
                Some(i) => {
                    before.lemma_position(i as int);
                    assert(after.keys() =~= before.keys());
                    assert forall|n: Seq<char>| after.keys().contains(n) implies #[trigger] after@[n]
                        == before@.insert(name@, lang@)[n] by {
                        let j = after.position(n);
                        before.lemma_position(j);
                        after.lemma_position(j);
                    }
                },
                None => {
                    assert(after.keys() =~= before.keys().push(name@));
                    let last = before.keys().len() as int;
                    assert forall|n: Seq<char>| after.keys().contains(n) implies #[trigger] after@[n]
                        == before@.insert(name@, lang@)[n] by {
                        let j = after.position(n);
                        after.lemma_position(j);
                        if j < last {
                            before.lemma_position(j);
                        }
                    }
                    assert forall|n: Seq<char>| before.keys().contains(n) implies after.keys().contains(
                        n,
                    ) by {
                        let j = before.position(n);
                        assert(after.keys()[j] == n);
                    }
                    assert(after.keys()[last] == name@);
                },
            }
            assert(after@ =~= before@.insert(name@, lang@));
        }
        self.entries = entries;
    }
}

struct Edge {
    parent: String,
    child: String,
}

/// The references of a document: one edge for each reference line inside a
/// chunk, from the chunk to the name referred to, in source order.
pub struct ReferenceGraph {
    edges: Vec<Edge>,
}

impl View for ReferenceGraph {
    type V = Seq<(Seq<char>, Seq<char>)>;

    closed spec fn view(&self) -> Seq<(Seq<char>, Seq<char>)> {
        self.edges@.map_values(|e: Edge| (e.parent@, e.child@))
    }
}

impl ReferenceGraph {
    /// A graph without edges.
    pub fn new() -> (g: ReferenceGraph)
        ensures
            g@ == Seq::<(Seq<char>, Seq<char>)>::empty(),
    {
        let g = ReferenceGraph { edges: Vec::new() };
        assert(g@ =~= Seq::<(Seq<char>, Seq<char>)>::empty());
        g
    }

    /// The number of edges.
    pub fn len(&self) -> (n: usize)
        ensures
            n == self@.len(),
    {
        self.edges.len()
    }

    /// The chunk that holds the `i`-th reference.
    pub fn parent_at(&self, i: usize) -> (name: &String)
        requires
            i < self@.len(),
        ensures
            name@ == self@[i as int].0,
    {
        &self.edges[i].parent
    }

    /// The name that the `i`-th reference refers to.
    pub fn child_at(&self, i: usize) -> (name: &String)
        requires
            i < self@.len(),
        ensures
            name@ == self@[i as int].1,
    {
        &self.edges[i].child
    }

    /// Adds an edge from `parent` to `child`, after those that are there.
    pub fn add_edge(&mut self, parent: &str, child: &str)
        ensures
            final(self)@ == old(self)@.push((parent@, child@)),
    {
        let ghost before = *self;
        self.edges.push(Edge { parent: String::from_str(parent), child: String::from_str(child) });
        assert(self@ =~= before@.push((parent@, child@)));
    }
}

/// `n` is assigned exactly the language `lang`.
pub open spec fn has_lang(m: Map<Seq<char>, Seq<char>>, n: Seq<char>, lang: Seq<char>) -> bool {
    m.contains_key(n) && m[n] == lang
}

/// The graph has an edge from `path[i]` to `path[i + 1]`.
pub open spec fn linked(g: Seq<(Seq<char>, Seq<char>)>, path: Seq<Seq<char>>, i: int) -> bool {
    g.contains((path[i], path[i + 1]))
}

/// `path` follows edges of the graph, and none of the chunks after its
/// first has the language `lang` in `m`.
pub open spec fn fresh_path(
    g: Seq<(Seq<char>, Seq<char>)>,
    m: Map<Seq<char>, Seq<char>>,
    lang: Seq<char>,
    path: Seq<Seq<char>>,
) -> bool {
    &&& path.len() >= 1
    &&& forall|i: int| 0 <= i < path.len() - 1 ==> #[trigger] linked(g, path, i)
    &&& forall|i: int| 1 <= i < path.len() ==> !has_lang(m, #[trigger] path[i], lang)
}

/// `n` is `parent`, or is reached from it through chunks that do not have
/// the language `lang` in `m`.
pub open spec fn reached(
    g: Seq<(Seq<char>, Seq<char>)>,
    m: Map<Seq<char>, Seq<char>>,
    lang: Seq<char>,
    parent: Seq<char>,
    n: Seq<char>,
) -> bool {
    exists|path: Seq<Seq<char>>| #[trigger]
        fresh_path(g, m, lang, path) && path[0] == parent && path.last() == n
}

/// The assignment after `lang` was propagated from `parent`: `parent` and
/// every chunk reached from it through chunks that did not have `lang` are
/// assigned `lang`, whatever they had; every other chunk keeps what it had.
pub open spec fn propagated(
    g: Seq<(Seq<char>, Seq<char>)>,
    m: Map<Seq<char>, Seq<char>>,
    parent: Seq<char>,
    lang: Seq<char>,
) -> Map<Seq<char>, Seq<char>> {
    Map::new(
        |n: Seq<char>| m.contains_key(n) || reached(g, m, lang, parent, n),
        |n: Seq<char>|
            if reached(g, m, lang, parent, n) {
                lang
            } else {
                m[n]
            },
    )
}

} // verus!
