//! The chunk store: named chunks of fragments, and the parser that builds
//! the store from the lines of a document.

use vstd::prelude::*;
use vstd::string::*;
use crate::text::{
    classify, indent_of, is_close, is_opener, is_reference, lemma_marker_shapes, opener_name,
    reference_name, text_lines, trimmed, LineKind,
};

verus! {

/// One piece of a chunk.
#[derive(Debug, PartialEq, Eq)]
pub enum Fragment {
    /// One line of raw text, without its line terminator.
    Literal(String),
    /// A reference to the chunk named first, with the whitespace that
    /// preceded the marker on its line.
    Reference(String, String),
}

/// A fragment as a mathematical value.
pub ghost enum FragmentView {
    Literal(Seq<char>),
    Reference(Seq<char>, Seq<char>),
}

impl View for Fragment {
    type V = FragmentView;

    open spec fn view(&self) -> FragmentView {
        match self {
            Fragment::Literal(text) => FragmentView::Literal(text@),
            Fragment::Reference(name, indent) => FragmentView::Reference(name@, indent@),
        }
    }
}

/// An ordered sequence of fragments.
#[derive(Debug, PartialEq, Eq)]
pub struct Chunk {
    pub fragments: Vec<Fragment>,
}

impl View for Chunk {
    type V = Seq<FragmentView>;

    open spec fn view(&self) -> Seq<FragmentView> {
        self.fragments@.map_values(|f: Fragment| f@)
    }
}

struct StoreEntry {
    name: String,
    chunk: Chunk,
}

/// The chunks of a document by name. Names are kept in the order in which
/// they were first defined, and no name occurs twice.
pub struct ChunkStore {
    entries: Vec<StoreEntry>,
}

impl View for ChunkStore {
    type V = Map<Seq<char>, Seq<FragmentView>>;

    closed spec fn view(&self) -> Map<Seq<char>, Seq<FragmentView>> {
        Map::new(
            |n: Seq<char>| self.keys().contains(n),
            |n: Seq<char>| self.entries@[self.position(n)].chunk@,
        )
    }
}

impl ChunkStore {
    /// The names of the chunks, in order of first definition.
    pub closed spec fn keys(&self) -> Seq<Seq<char>> {
        self.entries@.map_values(|e: StoreEntry| e.name@)
    }

    /// No name occurs twice.
    #[verifier::type_invariant]
    pub closed spec fn wf(&self) -> bool {
        self.keys().no_duplicates()
    }

    /// Where in `keys` the name `n` stands.
    pub closed spec fn position(&self, n: Seq<char>) -> int {
        choose|i: int| 0 <= i < self.keys().len() && self.keys()[i] == n
    }

    /// The store's names are the domain of its view, which is finite.
    pub proof fn lemma_keys(&self)
        requires
            self.wf(),
        ensures
            self@.dom() =~= self.keys().to_set(),
            self@.dom().finite(),
            self.keys().no_duplicates(),
    {
        vstd::seq_lib::seq_to_set_is_finite(self.keys());
    }

    proof fn lemma_position(&self, i: int)
        requires
            self.wf(),
            0 <= i < self.keys().len(),
        ensures
            self.position(self.keys()[i]) == i,
            self@.contains_key(self.keys()[i]),
            self@[self.keys()[i]] == self.entries@[i].chunk@,
    {
    }

    /// A store without chunks.
    pub fn new() -> (s: ChunkStore)
        ensures
            s@ == Map::<Seq<char>, Seq<FragmentView>>::empty(),
    {
        let s = ChunkStore { entries: Vec::new() };
        assert(s@ =~= Map::<Seq<char>, Seq<FragmentView>>::empty());
        s
    }

    /// The number of chunks.
    pub fn len(&self) -> (n: usize)
        ensures
            n == self.keys().len(),
            n == self@.dom().len(),
    {
        proof {
            use_type_invariant(self);
            self.lemma_keys();
            self.keys().unique_seq_to_set();
        }
        self.entries.len()
    }

    /// The name of the chunk that was defined `i`-th.
    pub fn name_at(&self, i: usize) -> (name: &str)
        requires
            i < self.keys().len(),
        ensures
            name@ == self.keys()[i as int],
            self@.contains_key(name@),
    {
        proof {
            use_type_invariant(self);
            self.lemma_position(i as int);
        }
        self.entries[i].name.as_str()
    }

    fn find(&self, name: &str) -> (r: Option<usize>)
        ensures
            match r {
                Some(i) => i < self.keys().len() && self.keys()[i as int] == name@,
                None => !self.keys().contains(name@),
            },
    {
        let wanted = String::from_str(name);
        let mut i: usize = 0;
        while i < self.entries.len()
            invariant
                i <= self.entries@.len(),
                wanted@ == name@,
                forall|j: int| 0 <= j < i ==> self.keys()[j] != name@,
            decreases self.entries@.len() - i,
        {
            if self.entries[i].name == wanted {
                return Some(i);
            }
            i += 1;
        }
        None
    }

    /// Whether a chunk named `name` is defined.
    pub fn contains(&self, name: &str) -> (r: bool)
        ensures
            r == self@.contains_key(name@),
    {
        self.find(name).is_some()
    }

    /// The chunk named `name`, if it is defined.
    pub fn get(&self, name: &str) -> (r: Option<&Chunk>)
        ensures
            match r {
                Some(c) => self@.contains_key(name@) && c@ == self@[name@],
                None => !self@.contains_key(name@),
            },
    {
        match self.find(name) {
            Some(i) => {
                proof {
                    use_type_invariant(self);
                    self.lemma_position(i as int);
                }
                Some(&self.entries[i].chunk)
            },
            None => None,
        }
    }

    /// Appends `frag` to the chunk named `name`, which is created empty
    /// first if the store does not hold it yet.
    pub fn append(&mut self, name: &str, frag: Fragment)
        ensures
            final(self)@ == append_fragment(old(self)@, name@, frag@),
    {
        let ghost before = *self;
        proof {
            use_type_invariant(&*self);
        }
        let found = self.find(name);
        let mut entries: Vec<StoreEntry> = Vec::new();
        core::mem::swap(&mut self.entries, &mut entries);
        match found {
            Some(i) => {
                let mut entry = entries.remove(i);
                entry.chunk.fragments.push(frag);
                entries.insert(i, entry);
            },
            None => {
                let mut fragments: Vec<Fragment> = Vec::new();
                fragments.push(frag);
                entries.push(StoreEntry { name: String::from_str(name), chunk: Chunk { fragments } });
            },
        }
        let ghost after = ChunkStore { entries };
        proof {
            match found {
                Some(i) => {
                    before.lemma_position(i as int);
                    assert(after.keys() =~= before.keys());
                    assert(after.entries@[i as int].chunk@ =~= before.entries@[i as int].chunk@.push(
                        frag@,
                    ));
                    assert forall|n: Seq<char>| after.keys().contains(n) implies #[trigger] after@[n]
                        == append_fragment(before@, name@, frag@)[n] by {
                        let j = after.position(n);
                        before.lemma_position(j);
                        after.lemma_position(j);
                    }
                },
                None => {
                    assert(after.keys() =~= before.keys().push(name@));
                    let last = before.keys().len() as int;
                    assert(after.entries@[last].chunk@ =~= Seq::<FragmentView>::empty().push(frag@));
                    assert forall|n: Seq<char>| after.keys().contains(n) implies #[trigger] after@[n]
                        == append_fragment(before@, name@, frag@)[n] by {
                        let j = after.position(n);
                        after.lemma_position(j);
                        if j < last {
                            before.lemma_position(j);
                        }
                    }
                    assert forall|n: Seq<char>| before.keys().contains(n) implies after.keys().contains(
                        n,
                    ) by {
                        let j = before.position(n);
                        assert(after.keys()[j] == n);
                    }
                    assert(after.keys()[last] == name@);
                },
            }
            assert(after@ =~= append_fragment(before@, name@, frag@));
        }
        self.entries = entries;
    }
}

/// The store after `frag` was appended to the chunk `name`: a chunk that is
/// defined in several places accumulates its fragments in source order.
pub open spec fn append_fragment(
    store: Map<Seq<char>, Seq<FragmentView>>,
    name: Seq<char>,
    frag: FragmentView,
) -> Map<Seq<char>, Seq<FragmentView>> {
    store.insert(name, chunk_of(store, name).push(frag))
}

/// Accumulation: after `a` and then `b` were added to the chunk `name`, the
/// chunk is what it was before, followed by `a` and then `b`.
pub proof fn lemma_accumulation(
    store: Map<Seq<char>, Seq<FragmentView>>,
    name: Seq<char>,
    a: FragmentView,
    b: FragmentView,
)
    ensures
        append_fragment(append_fragment(store, name, a), name, b)[name] == chunk_of(
            store,
            name,
        ).push(a).push(b),
        forall|other: Seq<char>|
            other != name && store.contains_key(other) ==> append_fragment(
                append_fragment(store, name, a),
                name,
                b,
            )[other] == store[other],
{
}

/// The parser's state between two lines: the store so far and the name of
/// the chunk that is open, if one is.
pub ghost struct ParseState {
    pub store: Map<Seq<char>, Seq<FragmentView>>,
    pub current: Option<Seq<char>>,
}

/// The parser's state after one more line.
///
/// Outside a chunk only an opener matters. Inside a chunk `@` closes it, a
/// reference line adds a reference, and every other line, an opener too, adds
/// a literal with the line's full content.
pub open spec fn parse_step(st: ParseState, line: Seq<char>) -> ParseState {
    let t = trimmed(line);
    match st.current {
        Some(name) => {
            if is_close(t) {
                ParseState { store: st.store, current: None }
            } else if is_reference(t) {
                ParseState {
                    store: append_fragment(
                        st.store,
                        name,
                        FragmentView::Reference(reference_name(t), indent_of(line)),
                    ),
                    current: st.current,
                }
            } else {
                ParseState {
                    store: append_fragment(st.store, name, FragmentView::Literal(line)),
                    current: st.current,
                }
            }
        },
        None => {
            if is_opener(t) {
                ParseState { store: st.store, current: Some(opener_name(t)) }
            } else {
                st
            }
        },
    }
}

/// The parser's state after all of `lines`.
pub open spec fn parse_lines(lines: Seq<Seq<char>>) -> ParseState
    decreases lines.len(),
{
    if lines.len() == 0 {
        ParseState { store: Map::empty(), current: None }
    } else {
        parse_step(parse_lines(lines.drop_last()), lines.last())
    }
}

/// The fragments of the chunk `name`; none if the store does not hold it.
pub open spec fn chunk_of(store: Map<Seq<char>, Seq<FragmentView>>, name: Seq<char>) -> Seq<
    FragmentView,
> {
    if store.contains_key(name) {
        store[name]
    } else {
        Seq::empty()
    }
}

/// Definitions accumulate: where a document `first` ends outside any chunk
/// and `second` follows it, each chunk of the whole is what `first` defines
/// of it, followed by what `second` defines of it, and the whole defines the
/// names that either part defines.
pub proof fn lemma_definitions_accumulate(first: Seq<Seq<char>>, second: Seq<Seq<char>>)
    requires
        parse_lines(first).current.is_none(),
    ensures
        parse_lines(first + second).current == parse_lines(second).current,
        forall|name: Seq<char>| #[trigger]
            parse_lines(first + second).store.contains_key(name) <==> parse_lines(
                first,
            ).store.contains_key(name) || parse_lines(second).store.contains_key(name),
        forall|name: Seq<char>| #[trigger]
            chunk_of(parse_lines(first + second).store, name) == chunk_of(
                parse_lines(first).store,
                name,
            ) + chunk_of(parse_lines(second).store, name),
    decreases second.len(),
{
    let whole = parse_lines(first + second);
    let a = parse_lines(first).store;
    if second.len() == 0 {
        assert(first + second =~= first);
        assert forall|name: Seq<char>| #[trigger]
            chunk_of(whole.store, name) == chunk_of(a, name) + chunk_of(
                parse_lines(second).store,
                name,
            ) by {
            assert(chunk_of(a, name) + Seq::<FragmentView>::empty() =~= chunk_of(a, name));
        }
    } else {
        let front = second.drop_last();
        let line = second.last();
        assert((first + second).drop_last() =~= first + front);
        assert((first + second).last() == line);
        lemma_definitions_accumulate(first, front);
        let before = parse_lines(first + front);
        let alone = parse_lines(front);
        assert(whole == parse_step(before, line));
        assert(parse_lines(second) == parse_step(alone, line));
        assert forall|name: Seq<char>| #[trigger]
            chunk_of(whole.store, name) == chunk_of(a, name) + chunk_of(
                parse_lines(second).store,
                name,
            ) by {
            let joint = chunk_of(before.store, name);
            let own = chunk_of(alone.store, name);
            assert(joint == chunk_of(a, name) + own);
            assert forall|frag: FragmentView| #[trigger]
                joint.push(frag) == chunk_of(a, name) + own.push(frag) by {
                assert(joint.push(frag) =~= chunk_of(a, name) + own.push(frag));
            }
        }
        assert forall|name: Seq<char>| #[trigger]
            whole.store.contains_key(name) <==> a.contains_key(name) || parse_lines(
                second,
            ).store.contains_key(name) by {
            assert(before.store.contains_key(name) <==> a.contains_key(name)
                || alone.store.contains_key(name));
        }
    }
}

/// Builds the chunk store of a document, given as its lines.
pub fn parse_input(lines: &Vec<String>) -> (store: ChunkStore)
    ensures
        store@ == parse_lines(text_lines(lines@)).store,
{
    let mut store = ChunkStore::new();
    let mut current: Option<String> = None;
    let ghost all = text_lines(lines@);
    let mut i: usize = 0;
    while i < lines.len()
        invariant
            i <= lines@.len(),
            all == text_lines(lines@),
            store@ == parse_lines(all.take(i as int)).store,
            match current {
                Some(name) => parse_lines(all.take(i as int)).current == Some(name@),
                None => parse_lines(all.take(i as int)).current.is_none(),
            },
        decreases lines@.len() - i,
    {
        proof {
            assert(all.take(i + 1).drop_last() =~= all.take(i as int));
            assert(all.take(i + 1).last() == lines@[i as int]@);
            lemma_marker_shapes(trimmed(lines@[i as int]@));
        }
        let line = &lines[i];
        let kind = classify(line.as_str());
        match current {
            Some(name) => {
                match kind {
                    LineKind::Close => {
                        current = None;
                    },
                    LineKind::Reference(target, indent) => {
                        store.append(name.as_str(), Fragment::Reference(target, indent));
                        current = Some(name);
                    },
                    _ => {
                        store.append(name.as_str(), Fragment::Literal(line.clone()));
                        current = Some(name);
                    },
                }
            },
            None => {
                match kind {
                    LineKind::Opener(name) => {
                        current = Some(name);
                    },
                    _ => {},
                }
            },
        }
        i += 1;
    }
    proof {
        assert(all.take(i as int) =~= all);
    }
    store
}

} // verus!
