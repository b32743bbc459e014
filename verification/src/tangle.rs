//! Tangling: the recursive expansion of a chunk into flat output lines, with
//! composed indentation and detection of reference cycles.

use vstd::prelude::*;
use vstd::string::*;
use crate::chunk::{ChunkStore, Fragment, FragmentView};
use crate::text::{contains_line, text_lines};

verus! {

/// What an expansion produced: the lines emitted, and the name of the chunk
/// at which a reference cycle stopped it, if one did.
pub ghost struct Expansion {
    pub lines: Seq<Seq<char>>,
    pub cycle: Option<Seq<char>>,
}

/// An expansion without lines.
pub open spec fn nothing() -> Expansion {
    Expansion { lines: Seq::empty(), cycle: None }
}

/// How many chunks of the store are not being expanded.
pub open spec fn remaining(store: Map<Seq<char>, Seq<FragmentView>>, active: Set<Seq<char>>) -> nat {
    store.dom().difference(active).len()
}

/// The expansion of the chunk `name` at indentation `indent`, while the
/// chunks in `active` are being expanded.
///
/// A name that is being expanded already is a cycle. A name that the store
/// does not hold expands to nothing.
pub open spec fn expand_chunk(
    store: Map<Seq<char>, Seq<FragmentView>>,
    name: Seq<char>,
    indent: Seq<char>,
    active: Set<Seq<char>>,
) -> Expansion
    decreases remaining(store, active), 0nat, 0nat,
    when store.dom().finite()
    via expand_chunk_decreases
{
    if active.contains(name) {
        Expansion { lines: Seq::empty(), cycle: Some(name) }
    } else if !store.contains_key(name) {
        nothing()
    } else {
        expand_frags(store, store[name], indent, active.insert(name))
    }
}

/// The expansion of the fragments `frags`, in order, at indentation
/// `indent`. A literal gives one line, the indentation followed by its text.
/// A reference gives the expansion of its chunk at the indentation extended
/// by the reference's own, or nothing if the store does not hold that chunk.
/// A cycle ends the expansion: what was emitted before it stays.
pub open spec fn expand_frags(
    store: Map<Seq<char>, Seq<FragmentView>>,
    frags: Seq<FragmentView>,
    indent: Seq<char>,
    active: Set<Seq<char>>,
) -> Expansion
    decreases remaining(store, active), 1nat, frags.len(),
    when store.dom().finite()
{
    if frags.len() == 0 {
        nothing()
    } else {
        let first = expand_one(store, frags[0], indent, active);
        if first.cycle.is_some() {
            first
        } else {
            let rest = expand_frags(store, frags.drop_first(), indent, active);
            Expansion { lines: first.lines + rest.lines, cycle: rest.cycle }
        }
    }
}

/// The expansion of one fragment.
pub open spec fn expand_one(
    store: Map<Seq<char>, Seq<FragmentView>>,
    frag: FragmentView,
    indent: Seq<char>,
    active: Set<Seq<char>>,
) -> Expansion
    decreases remaining(store, active), 0nat, 1nat,
    when store.dom().finite()
{
    match frag {
        FragmentView::Literal(text) => Expansion { lines: seq![indent + text], cycle: None },
        FragmentView::Reference(child, local) => {
            if store.contains_key(child) {
                expand_chunk(store, child, indent + local, active)
            } else {
                nothing()
            }
        },
    }
}

#[via_fn]
proof fn expand_chunk_decreases(
    store: Map<Seq<char>, Seq<FragmentView>>,
    name: Seq<char>,
    indent: Seq<char>,
    active: Set<Seq<char>>,
) {
    if !active.contains(name) && store.contains_key(name) {
        lemma_remaining_shrinks(store, name, active);
    }
}

/// Taking up a chunk of the store that is not being expanded leaves fewer
/// chunks that are not.
pub proof fn lemma_remaining_shrinks(
    store: Map<Seq<char>, Seq<FragmentView>>,
    name: Seq<char>,
    active: Set<Seq<char>>,
)
    requires
        store.dom().finite(),
        store.contains_key(name),
        !active.contains(name),
    ensures
        remaining(store, active.insert(name)) < remaining(store, active),
{
    let before = store.dom().difference(active);
    assert(store.dom().difference(active.insert(name)) =~= before.remove(name));
    assert(before.contains(name));
}

/// Why a chunk could not be tangled.
#[derive(Debug, PartialEq, Eq)]
pub enum TangleError {
    /// The store holds no chunk of the requested root name.
    RootNotFound(String),
    /// The named chunk refers to itself, directly or through other chunks.
    Cycle(String),
}

/// The names in `stack`, as a set.
pub open spec fn active_names(stack: Seq<String>) -> Set<Seq<char>> {
    text_lines(stack).to_set()
}

proof fn lemma_active_push(stack: Seq<String>, name: String)
    ensures
        active_names(stack.push(name)) =~= active_names(stack).insert(name@),
{
    let a = text_lines(stack);
    let b = text_lines(stack.push(name));
    assert(b =~= a.push(name@));
    assert forall|n: Seq<char>| b.contains(n) implies a.contains(n) || n == name@ by {
        let j = choose|j: int| 0 <= j < b.len() && b[j] == n;
        if j < a.len() {
            assert(a[j] == n);
        }
    }
    assert forall|n: Seq<char>| a.contains(n) || n == name@ implies b.contains(n) by {
        if a.contains(n) {
            let j = choose|j: int| 0 <= j < a.len() && a[j] == n;
            assert(b[j] == n);
        } else {
            assert(b[a.len() as int] == n);
        }
    }
}

/// Expands the chunk `name` at indentation `base_indent` and appends the
/// lines to `out`. `stack` holds the names of the chunks that are being
/// expanded; it is the same after the call as before.
///
/// The result is an error exactly when the expansion runs into a chunk that
/// is on the stack or that it is itself expanding; the error names that
/// chunk, and `out` has received the lines that came before it.
pub fn expand(
    name: &str,
    store: &ChunkStore,
    base_indent: &str,
    stack: &mut Vec<String>,
    out: &mut Vec<String>,
) -> (r: Result<(), TangleError>)
    ensures
        final(stack)@ == old(stack)@,
        text_lines(final(out)@) == text_lines(old(out)@) + expand_chunk(
            store@,
            name@,
            base_indent@,
            active_names(old(stack)@),
        ).lines,
        match r {
            Ok(_) => expand_chunk(
                store@,
                name@,
                base_indent@,
                active_names(old(stack)@),
            ).cycle.is_none(),
            Err(TangleError::Cycle(n)) => expand_chunk(
                store@,
                name@,
                base_indent@,
                active_names(old(stack)@),
            ).cycle == Some(n@),
            Err(TangleError::RootNotFound(_)) => false,
        },
    decreases remaining(store@, active_names(old(stack)@)),
{
    let ghost active = active_names(stack@);
    let ghost out0 = text_lines(out@);
    let ghost stack0 = stack@;
    proof {
        use_type_invariant(store);
        store.lemma_keys();
        assert(out0 + Seq::<Seq<char>>::empty() =~= out0);
    }
    if contains_line(stack, name) {
        return Err(TangleError::Cycle(String::from_str(name)));
    }
    let chunk = match store.get(name) {
        Some(c) => c,
        None => {
            return Ok(());
        },
    };
    stack.push(String::from_str(name));
    let ghost inner = active.insert(name@);
    let ghost pushed = stack@;
    let ghost full = expand_frags(store@, chunk@, base_indent@, inner);
    proof {
        lemma_active_push(stack0, pushed.last());
        assert(pushed =~= stack0.push(pushed.last()));
        lemma_remaining_shrinks(store@, name@, active);
        assert(chunk@.skip(0) =~= chunk@);
    }
    let mut failure: Option<TangleError> = None;
    let mut i: usize = 0;
    while i < chunk.fragments.len() && failure.is_none()
        invariant
            store@.dom().finite(),
            i <= chunk.fragments@.len(),
            stack@ == pushed,
            active == active_names(old(stack)@),
            active_names(pushed) == inner,
            remaining(store@, inner) < remaining(store@, active),
            full == expand_frags(store@, chunk@, base_indent@, inner),
            match failure {
                None => {
                    &&& text_lines(out@) + expand_frags(
                        store@,
                        chunk@.skip(i as int),
                        base_indent@,
                        inner,
                    ).lines == out0 + full.lines
                    &&& expand_frags(store@, chunk@.skip(i as int), base_indent@, inner).cycle
                        == full.cycle
                },
                Some(TangleError::Cycle(n)) => {
                    &&& text_lines(out@) == out0 + full.lines
                    &&& full.cycle == Some(n@)
                },
                Some(TangleError::RootNotFound(_)) => false,
            },
        decreases chunk.fragments@.len() - i,
    {
        let ghost before = text_lines(out@);
        let ghost rest = chunk@.skip(i as int);
        let ghost one = expand_one(store@, rest[0], base_indent@, inner);
        let ghost later = expand_frags(store@, chunk@.skip(i + 1), base_indent@, inner);
        proof {
            assert(rest.drop_first() =~= chunk@.skip(i + 1));
            assert(rest[0] == chunk.fragments@[i as int]@);
        }
        match &chunk.fragments[i] {
            Fragment::Literal(text) => {
                let line = String::from_str(base_indent).concat(text.as_str());
                out.push(line);
                proof {
                    assert(text_lines(out@) =~= before + one.lines);
                }
            },
            Fragment::Reference(child, local) => {
                if store.contains(child.as_str()) {
                    let next = String::from_str(base_indent).concat(local.as_str());
                    match expand(child.as_str(), store, next.as_str(), stack, out) {
                        Ok(_) => {},
                        Err(e) => {
                            failure = Some(e);
                        },
                    }
                } else {
                    proof {
                        assert(before + one.lines =~= before);
                    }
                }
            },
        }
        proof {
            assert(text_lines(out@) == before + one.lines);
            if one.cycle.is_none() {
                assert((before + one.lines) + later.lines =~= before + (one.lines + later.lines));
            }
        }
        i += 1;
    }
    proof {
        if failure.is_none() {
            assert(chunk@.skip(i as int).len() == 0);
            assert(text_lines(out@) + Seq::<Seq<char>>::empty() =~= text_lines(out@));
        }
        assert(stack0.push(pushed.last()).drop_last() =~= stack0);
    }
    stack.pop();
    match failure {
        None => Ok(()),
        Some(e) => Err(e),
    }
}

/// Tangles the chunk `root`: its expansion at no indentation, with nothing
/// else being expanded.
///
/// Fails with `RootNotFound` exactly when the store holds no chunk `root`,
/// and with `Cycle` exactly when the expansion meets a reference cycle; no
/// lines are handed out then.
pub fn tangle(store: &ChunkStore, root: &str) -> (r: Result<Vec<String>, TangleError>)
    ensures
        tangle_outcome(store@, root@, r),
{
    if !store.contains(root) {
        return Err(TangleError::RootNotFound(String::from_str(root)));
    }
    let mut stack: Vec<String> = Vec::new();
    let mut out: Vec<String> = Vec::new();
    let empty = String::new();
    proof {
        assert(active_names(stack@) =~= Set::<Seq<char>>::empty());
        assert(text_lines(out@) =~= Seq::<Seq<char>>::empty());
        assert(empty@ =~= Seq::<char>::empty());
    }
    let r = expand(root, store, empty.as_str(), &mut stack, &mut out);
    proof {
        assert(Seq::<Seq<char>>::empty() + tangled(store@, root@).lines =~= tangled(
            store@,
            root@,
        ).lines);
    }
    match r {
        Ok(_) => Ok(out),
        Err(e) => Err(e),
    }
}

/// What tangling the chunk `root` returns: the lines of its expansion; or
/// `RootNotFound` with the root's name, exactly when the store holds no such
/// chunk; or `Cycle` with the name of the chunk that the expansion met while
/// expanding it, exactly when it met one.
pub open spec fn tangle_outcome(
    store: Map<Seq<char>, Seq<FragmentView>>,
    root: Seq<char>,
    r: Result<Vec<String>, TangleError>,
) -> bool {
    match r {
        Ok(lines) => {
            &&& store.contains_key(root)
            &&& tangled(store, root).cycle.is_none()
            &&& text_lines(lines@) == tangled(store, root).lines
        },
        Err(TangleError::RootNotFound(n)) => !store.contains_key(root) && n@ == root,
        Err(TangleError::Cycle(n)) => {
            &&& store.contains_key(root)
            &&& tangled(store, root).cycle == Some(n@)
        },
    }
}

/// Tangling is deterministic: two results for the same store and the same
/// root are both lines, and the same lines, or both the same error with the
/// same name.
pub proof fn lemma_tangle_deterministic(
    store: Map<Seq<char>, Seq<FragmentView>>,
    root: Seq<char>,
    first: Result<Vec<String>, TangleError>,
    second: Result<Vec<String>, TangleError>,
)
    requires
        tangle_outcome(store, root, first),
        tangle_outcome(store, root, second),
    ensures
        match (first, second) {
            (Ok(a), Ok(b)) => text_lines(a@) == text_lines(b@),
            (Err(TangleError::RootNotFound(a)), Err(TangleError::RootNotFound(b))) => a@ == b@,
            (Err(TangleError::Cycle(a)), Err(TangleError::Cycle(b))) => a@ == b@,
            _ => false,
        },
{
}

/// The expansion of a root chunk: at no indentation, with no chunk being
/// expanded yet.
pub open spec fn tangled(store: Map<Seq<char>, Seq<FragmentView>>, root: Seq<char>) -> Expansion {
    expand_chunk(store, root, Seq::empty(), Set::empty())
}

/// The text of `lines`, each followed by a line feed.
pub open spec fn joined(lines: Seq<Seq<char>>) -> Seq<char>
    decreases lines.len(),
{
    if lines.len() == 0 {
        Seq::empty()
    } else {
        joined(lines.drop_last()) + lines.last() + seq!['\n']
    }
}

/// The text of `lines`, each followed by a line feed.
pub fn join_lines(lines: &Vec<String>) -> (text: String)
    ensures
        text@ == joined(text_lines(lines@)),
{
    let mut text = String::new();
    let ghost all = text_lines(lines@);
    let mut i: usize = 0;
    proof {
        reveal_strlit("\n");
        assert("\n"@ =~= seq!['\n']);
    }
    while i < lines.len()
        invariant
            i <= lines@.len(),
            all == text_lines(lines@),
            "\n"@ == seq!['\n'],
            text@ == joined(all.take(i as int)),
        decreases lines@.len() - i,
    {
        proof {
            assert(all.take(i + 1).drop_last() =~= all.take(i as int));
        }
        text.append(lines[i].as_str());
        text.append("\n");
        i += 1;
    }
    proof {
        assert(all.take(i as int) =~= all);
    }
    text
}

/// `e` with `x` put before each of its lines.
pub open spec fn prefixed(e: Expansion, x: Seq<char>) -> Expansion {
    Expansion { lines: e.lines.map_values(|l: Seq<char>| x + l), cycle: e.cycle }
}

/// Indentation is a prefix: expanding a chunk at indentation `x` gives the
/// lines of its expansion at no indentation, each with `x` before it, and
/// meets the same cycle.
pub proof fn lemma_indent_chunk(
    store: Map<Seq<char>, Seq<FragmentView>>,
    name: Seq<char>,
    x: Seq<char>,
    active: Set<Seq<char>>,
)
    requires
        store.dom().finite(),
    ensures
        expand_chunk(store, name, x, active) == prefixed(
            expand_chunk(store, name, Seq::empty(), active),
            x,
        ),
    decreases remaining(store, active), 0nat, 0nat,
{
    let plain = expand_chunk(store, name, Seq::empty(), active);
    if active.contains(name) || !store.contains_key(name) {
        assert(prefixed(plain, x).lines =~= plain.lines);
    } else {
        lemma_remaining_shrinks(store, name, active);
        lemma_indent_frags(store, store[name], x, active.insert(name));
    }
}

proof fn lemma_indent_frags(
    store: Map<Seq<char>, Seq<FragmentView>>,
    frags: Seq<FragmentView>,
    x: Seq<char>,
    active: Set<Seq<char>>,
)
    requires
        store.dom().finite(),
    ensures
        expand_frags(store, frags, x, active) == prefixed(
            expand_frags(store, frags, Seq::empty(), active),
            x,
        ),
    decreases remaining(store, active), 1nat, frags.len(),
{
    let plain = expand_frags(store, frags, Seq::empty(), active);
    if frags.len() == 0 {
        assert(prefixed(plain, x).lines =~= plain.lines);
    } else {
        lemma_indent_one(store, frags[0], x, active);
        let first = expand_one(store, frags[0], Seq::empty(), active);
        if first.cycle.is_none() {
            lemma_indent_frags(store, frags.drop_first(), x, active);
            let rest = expand_frags(store, frags.drop_first(), Seq::empty(), active);
            assert(prefixed(plain, x).lines =~= prefixed(first, x).lines + prefixed(rest, x).lines);
        }
    }
}

proof fn lemma_indent_one(
    store: Map<Seq<char>, Seq<FragmentView>>,
    frag: FragmentView,
    x: Seq<char>,
    active: Set<Seq<char>>,
)
    requires
        store.dom().finite(),
    ensures
        expand_one(store, frag, x, active) == prefixed(
            expand_one(store, frag, Seq::empty(), active),
            x,
        ),
    decreases remaining(store, active), 0nat, 1nat,
{
    let plain = expand_one(store, frag, Seq::empty(), active);
    match frag {
        FragmentView::Literal(text) => {
            assert(Seq::<char>::empty() + text =~= text);
            assert(prefixed(plain, x).lines =~= seq![x + text]);
        },
        FragmentView::Reference(child, local) => {
            if store.contains_key(child) {
                let bare = expand_chunk(store, child, Seq::empty(), active);
                assert(Seq::<char>::empty() + local =~= local);
                lemma_indent_chunk(store, child, x + local, active);
                lemma_indent_chunk(store, child, local, active);
                assert forall|i: int| 0 <= i < bare.lines.len() implies #[trigger] prefixed(
                    prefixed(bare, local),
                    x,
                ).lines[i] == prefixed(bare, x + local).lines[i] by {
                    assert(x + (local + bare.lines[i]) =~= (x + local) + bare.lines[i]);
                }
                assert(prefixed(prefixed(bare, local), x).lines =~= prefixed(bare, x + local).lines);
            } else {
                assert(prefixed(plain, x).lines =~= plain.lines);
            }
        },
    }
}

/// A reference with local indentation `local`, met while expanding at
/// indentation `base`, contributes the lines of the chunk it names, each
/// with exactly `base` followed by `local` before it.
pub proof fn lemma_indentation_composes(
    store: Map<Seq<char>, Seq<FragmentView>>,
    child: Seq<char>,
    local: Seq<char>,
    base: Seq<char>,
    active: Set<Seq<char>>,
)
    requires
        store.dom().finite(),
        store.contains_key(child),
    ensures
        expand_one(store, FragmentView::Reference(child, local), base, active).lines
            == expand_chunk(store, child, Seq::empty(), active).lines.map_values(
            |l: Seq<char>| base + local + l,
        ),
{
    lemma_indent_chunk(store, child, base + local, active);
}

/// A reference to a name that the store does not hold contributes no line
/// and is no failure.
pub proof fn lemma_dangling_reference(
    store: Map<Seq<char>, Seq<FragmentView>>,
    child: Seq<char>,
    local: Seq<char>,
    base: Seq<char>,
    active: Set<Seq<char>>,
)
    requires
        store.dom().finite(),
        !store.contains_key(child),
    ensures
        expand_one(store, FragmentView::Reference(child, local), base, active) == nothing(),
{
}

/// A chunk that refers to a chunk which is being expanded cannot be
/// expanded: the expansion stops at the reference and names that chunk.
pub proof fn lemma_reference_to_active_is_cycle(
    store: Map<Seq<char>, Seq<FragmentView>>,
    child: Seq<char>,
    local: Seq<char>,
    base: Seq<char>,
    active: Set<Seq<char>>,
)
    requires
        store.dom().finite(),
        store.contains_key(child),
        active.contains(child),
    ensures
        expand_one(store, FragmentView::Reference(child, local), base, active).cycle == Some(child),
{
}

/// Two chunks that refer to each other cannot be tangled: where the chunk
/// `a` begins with a reference to `b`, and `b` with a reference to `a`,
/// tangling `a` stops at the cycle, names `a`, and gives no line.
pub proof fn lemma_mutual_reference_is_cycle(
    store: Map<Seq<char>, Seq<FragmentView>>,
    a: Seq<char>,
    b: Seq<char>,
    indent_a: Seq<char>,
    indent_b: Seq<char>,
)
    requires
        store.dom().finite(),
        store.contains_key(a),
        store.contains_key(b),
        store[a].len() > 0,
        store[b].len() > 0,
        store[a][0] == FragmentView::Reference(b, indent_b),
        store[b][0] == FragmentView::Reference(a, indent_a),
    ensures
        tangled(store, a) == (Expansion { lines: Seq::empty(), cycle: Some(a) }),
{
    let none = Set::<Seq<char>>::empty();
    let stop = Expansion { lines: Seq::empty(), cycle: Some(a) };
    let in_a = none.insert(a);
    let base = Seq::<char>::empty();
    if a == b {
        assert(expand_chunk(store, a, base + indent_b, in_a) == stop);
        assert(expand_one(store, store[a][0], base, in_a) == stop);
        assert(expand_frags(store, store[a], base, in_a) == stop);
    } else {
        let in_b = in_a.insert(b);
        let deep = base + indent_b;
        assert(expand_chunk(store, a, deep + indent_a, in_b) == stop);
        assert(expand_one(store, store[b][0], deep, in_b) == stop);
        assert(expand_frags(store, store[b], deep, in_b) == stop);
        assert(expand_chunk(store, b, deep, in_a) == stop);
        assert(expand_one(store, store[a][0], base, in_a) == stop);
        assert(expand_frags(store, store[a], base, in_a) == stop);
    }
}

} // verus!
