//! The walker: copies a source text and writes a placeholder in place of
//! every function body.

use vstd::prelude::*;
use crate::languages::{FunctionSpecView, GrammarView, LanguageGrammar};
use crate::tree::SyntaxNode;

verus! {

/// One replaced span of the source: the bytes `[start, end)` give way to
/// `replacement`.
pub struct Elision {
    pub start: nat,
    pub end: nat,
    pub replacement: Seq<u8>,
}

/// The least index at or after `from` of a node of kind `kind`.
pub open spec fn first_of_kind(nodes: Seq<SyntaxNode>, kind: Seq<char>, from: int) -> Option<int>
    decreases nodes.len() - from,
{
    if from < 0 || from >= nodes.len() {
        None
    } else if nodes[from].kind@ == kind {
        Some(from)
    } else {
        first_of_kind(nodes, kind, from + 1)
    }
}

/// The elision that a function node gives rise to under the spec that
/// claims it: from the start of its first direct child of the spec's body
/// kind to the node's end. A node without such a child gives none.
pub open spec fn elision_of(node: SyntaxNode, spec: FunctionSpecView) -> Option<Elision> {
    match first_of_kind(node.children@, spec.function_body, 0) {
        Some(i) => Some(
            Elision {
                start: node.children@[i].start_byte as nat,
                end: node.end_byte as nat,
                replacement: spec.replacement,
            },
        ),
        None => None,
    }
}

/// The elisions under `node`, from left to right: one for each function node
/// with a body that no other function node encloses. Nothing under a
/// function node is looked at, whether it has a body or not.
pub open spec fn elisions(node: SyntaxNode, grammar: GrammarView) -> Seq<Elision>
    decreases node, 0nat,
{
    match grammar.spec_index(node.kind@) {
        Some(k) => match elision_of(node, grammar.function_specs[k]) {
            Some(e) => seq![e],
            None => Seq::empty(),
        },
        None => elisions_of_first(node.children@, grammar, node.children@.len()),
    }
}

/// The elisions under the first `n` nodes of `nodes`, from left to right.
pub open spec fn elisions_of_first(nodes: Seq<SyntaxNode>, grammar: GrammarView, n: nat) -> Seq<
    Elision,
>
    decreases nodes, n,
{
    if n == 0 || n > nodes.len() {
        Seq::empty()
    } else {
        elisions_of_first(nodes, grammar, (n - 1) as nat) + elisions(nodes[n - 1], grammar)
    }
}

/// Whether a function node that no other function node encloses, `node`
/// or one under it, has no body: no direct child of its spec's body kind.
pub open spec fn lacks_body(node: SyntaxNode, grammar: GrammarView) -> bool
    decreases node,
{
    match grammar.spec_index(node.kind@) {
        Some(k) => elision_of(node, grammar.function_specs[k]).is_none(),
        None => exists|i: int|
            0 <= i < node.children@.len() && lacks_body(#[trigger] node.children@[i], grammar),
    }
}

/// Where the walker's cursor stands once `node` is visited: at the end of a
/// function node or of a leaf, and otherwise where the last child left it.
pub open spec fn cursor_after(node: SyntaxNode, grammar: GrammarView) -> nat
    decreases node,
{
    if grammar.spec_index(node.kind@).is_some() || node.children@.len() == 0 {
        node.end_byte as nat
    } else {
        cursor_after(node.children@[node.children@.len() - 1], grammar)
    }
}

/// The elisions lie within `[lo, hi)`, none is reversed, and each ends
/// before the next starts.
pub open spec fn ordered(els: Seq<Elision>, lo: int, hi: int) -> bool {
    &&& forall|i: int| 0 <= i < els.len() ==> lo <= (#[trigger] els[i]).start <= els[i].end <= hi
    &&& forall|i: int, j: int|
        0 <= i < j < els.len() ==> (#[trigger] els[i]).end <= (#[trigger] els[j]).start
}

/// The first `upto` bytes of `code` with each elision's span replaced by
/// its replacement.
pub open spec fn assemble(code: Seq<u8>, els: Seq<Elision>, upto: int) -> Seq<u8>
    decreases els.len(),
{
    if els.len() == 0 {
        code.subrange(0, upto)
    } else {
        let e = els.last();
        assemble(code, els.drop_last(), e.start as int) + e.replacement + code.subrange(
            e.end as int,
            upto,
        )
    }
}

/// The text that the walker gives for `code`, parsed as `root`, under `grammar`.
pub open spec fn rendered(code: Seq<u8>, root: SyntaxNode, grammar: GrammarView) -> Seq<u8> {
    assemble(code, elisions(root, grammar), code.len() as int)
}

/// The bytes of `code` from `from` up to `upto` with each elision's span
/// replaced by its replacement: what the walker writes between two
/// positions of its cursor.
pub open spec fn assemble_from(code: Seq<u8>, els: Seq<Elision>, from: int, upto: int) -> Seq<u8>
    decreases els.len(),
{
    if els.len() == 0 {
        code.subrange(from, upto)
    } else {
        let e = els.last();
        assemble_from(code, els.drop_last(), from, e.start as int) + e.replacement + code.subrange(
            e.end as int,
            upto,
        )
    }
}

/// From the start of the text, `assemble_from` is `assemble`.
pub proof fn lemma_assemble_from_start(code: Seq<u8>, els: Seq<Elision>, upto: int)
    ensures
        assemble_from(code, els, 0, upto) == assemble(code, els, upto),
    decreases els.len(),
{
    if els.len() > 0 {
        lemma_assemble_from_start(code, els.drop_last(), els.last().start as int);
    }
}

/// Copying the source on from `upto` to `further` extends what was
/// assembled to `further`.
pub proof fn lemma_assemble_extend(
    code: Seq<u8>,
    els: Seq<Elision>,
    from: int,
    upto: int,
    further: int,
)
    requires
        ordered(els, from, upto),
        0 <= from <= upto <= further <= code.len(),
    ensures
        assemble_from(code, els, from, upto) + code.subrange(upto, further) == assemble_from(
            code,
            els,
            from,
            further,
        ),
{
    if els.len() == 0 {
        assert(code.subrange(from, upto) + code.subrange(upto, further) =~= code.subrange(
            from,
            further,
        ));
    } else {
        let e = els.last();
        let head = assemble_from(code, els.drop_last(), from, e.start as int) + e.replacement;
        assert(code.subrange(e.end as int, upto) + code.subrange(upto, further) =~= code.subrange(
            e.end as int,
            further,
        ));
        assert((head + code.subrange(e.end as int, upto)) + code.subrange(upto, further) =~= head
            + code.subrange(e.end as int, further));
    }
}

/// Elisions that end before others start stay ordered when put together.
pub proof fn lemma_ordered_concat(a: Seq<Elision>, b: Seq<Elision>, lo: int, mid: int, hi: int)
    requires
        ordered(a, lo, mid),
        ordered(b, mid, hi),
        lo <= mid <= hi,
    ensures
        ordered(a + b, lo, hi),
{
    let c = a + b;
    assert forall|i: int| 0 <= i < c.len() implies lo <= (#[trigger] c[i]).start <= c[i].end
        <= hi by {
        if i < a.len() {
            assert(c[i] == a[i]);
        } else {
            assert(c[i] == b[i - a.len()]);
        }
    }
    assert forall|i: int, j: int| 0 <= i < j < c.len() implies (#[trigger] c[i]).end <= (
    #[trigger] c[j]).start by {
        if j < a.len() {
            assert(c[i] == a[i] && c[j] == a[j]);
        } else if i < a.len() {
            assert(c[i] == a[i] && c[j] == b[j - a.len()]);
        } else {
            assert(c[i] == b[i - a.len()] && c[j] == b[j - a.len()]);
        }
    }
}

/// What is assembled up to `mid` and what is assembled from there on make
/// what is assembled over both.
pub proof fn lemma_assemble_concat(
    code: Seq<u8>,
    a: Seq<Elision>,
    b: Seq<Elision>,
    from: int,
    mid: int,
    upto: int,
)
    requires
        ordered(a, from, mid),
        ordered(b, mid, upto),
        0 <= from <= mid <= upto <= code.len(),
    ensures
        assemble_from(code, a, from, mid) + assemble_from(code, b, mid, upto) == assemble_from(
            code,
            a + b,
            from,
            upto,
        ),
    decreases b.len(),
{
    if b.len() == 0 {
        assert(a + b =~= a);
        lemma_assemble_extend(code, a, from, mid, upto);
    } else {
        let e = b.last();
        let rest = b.drop_last();
        assert(e == b[b.len() - 1]);
        assert forall|i: int| 0 <= i < rest.len() implies mid <= (#[trigger] rest[i]).start
            <= rest[i].end <= e.start by {
            assert(rest[i] == b[i]);
        }
        assert forall|i: int, j: int| 0 <= i < j < rest.len() implies (#[trigger] rest[i]).end <= (
        #[trigger] rest[j]).start by {
            assert(rest[i] == b[i] && rest[j] == b[j]);
        }
        lemma_assemble_concat(code, a, rest, from, mid, e.start as int);
        assert((a + b).drop_last() =~= a + rest);
        assert((a + b).last() == e);
        let tail = code.subrange(e.end as int, upto);
        assert(assemble_from(code, a, from, mid) + (assemble_from(code, rest, mid, e.start as int)
            + e.replacement + tail) =~= (assemble_from(code, a, from, mid) + assemble_from(
            code,
            rest,
            mid,
            e.start as int,
        )) + e.replacement + tail);
    }
}

/// Appends the bytes `code[from..to]` to `out`.
fn append_range(out: &mut Vec<u8>, code: &[u8], from: usize, to: usize)
    requires
        from <= to <= code@.len(),
    ensures
        final(out)@ == old(out)@ + code@.subrange(from as int, to as int),
{
    let mut i: usize = from;
    while i < to
        invariant
            from <= i <= to <= code@.len(),
            out@ == old(out)@ + code@.subrange(from as int, i as int),
        decreases to - i,
    {
        out.push(code[i]);
        i += 1;
        assert(out@ =~= old(out)@ + code@.subrange(from as int, i as int));
    }
    assert(out@ =~= old(out)@ + code@.subrange(from as int, to as int));
}

/// The first direct child of `node` whose kind is `body_kind`, by its index.
fn find_body(node: &SyntaxNode, body_kind: &String) -> (found: Option<usize>)
    ensures
        match found {
            Some(i) => first_of_kind(node.children@, body_kind@, 0) == Some(i as int) && i
                < node.children@.len(),
            None => first_of_kind(node.children@, body_kind@, 0).is_none(),
        },
{
    let n: usize = node.children.len();
    let mut i: usize = 0;
    while i < n
        invariant
            n == node.children@.len(),
            i <= n,
            first_of_kind(node.children@, body_kind@, 0) == first_of_kind(
                node.children@,
                body_kind@,
                i as int,
            ),
        decreases n - i,
    {
        if node.children[i].kind == *body_kind {
            return Some(i);
        }
        i += 1;
    }
    None
}

/// Visits `node` with the source up to `cursor` already dealt with: writes
/// to `out` the source from the cursor on, with the body of every function
/// under `node` that no other function encloses replaced by its
/// placeholder, and leaves the cursor at the end of a function node or of a
/// leaf, and otherwise where the last child left it.
pub fn walk(
    node: &SyntaxNode,
    code: &[u8],
    grammar: &LanguageGrammar,
    out: &mut Vec<u8>,
    cursor: &mut usize,
)
    requires
        node.wf(),
        node.end_byte <= code@.len(),
        *old(cursor) <= node.start_byte,
    ensures
        *final(cursor) == cursor_after(*node, grammar@),
        node.start_byte <= *final(cursor) <= node.end_byte,
        ordered(elisions(*node, grammar@), *old(cursor) as int, *final(cursor) as int),
        final(out)@ == old(out)@ + assemble_from(
            code@,
            elisions(*node, grammar@),
            *old(cursor) as int,
            *final(cursor) as int,
        ),
    decreases node,
{
    let start: usize = node.start_byte;
    let end: usize = node.end_byte;
    let ghost before = out@;
    let ghost from = *cursor as int;
    if start > *cursor {
        append_range(out, code, *cursor, start);
        *cursor = start;
    }
    assert(out@ =~= before + code@.subrange(from, start as int));
    match grammar.find_spec(&node.kind) {
        Some(k) => {
            let spec = &grammar.function_specs[k];
            assert(grammar@.function_specs[k as int] == spec@);
            match find_body(node, &spec.function_body) {
                Some(b) => {
                    let body: usize = node.children[b].start_byte;
                    assert(node.children@[b as int].wf());
                    append_range(out, code, start, body);
                    let replacement = spec.replacement.as_str().as_bytes();
                    append_range(out, replacement, 0, replacement.len());
                    *cursor = end;
                    proof {
                        let e = elision_of(*node, spec@).unwrap();
                        let els = elisions(*node, grammar@);
                        assert(els =~= seq![e]);
                        assert(els.drop_last() =~= Seq::<Elision>::empty());
                        assert(replacement@.subrange(0, replacement@.len() as int)
                            =~= replacement@);
                        assert(code@.subrange(end as int, end as int) =~= Seq::<u8>::empty());
                        assert(code@.subrange(from, start as int) + code@.subrange(
                            start as int,
                            body as int,
                        ) =~= code@.subrange(from, body as int));
                        assert(e.start == body && e.end == end && els.last() == e);
                        assert(assemble_from(code@, els.drop_last(), from, body as int)
                            =~= code@.subrange(from, body as int));
                        assert(out@ =~= before + code@.subrange(from, start as int)
                            + code@.subrange(start as int, body as int) + replacement@);
                        assert(out@ =~= before + assemble_from(code@, els, from, end as int));
                    }
                },
                None => {
                    append_range(out, code, start, end);
                    *cursor = end;
                    proof {
                        assert(elisions(*node, grammar@) =~= Seq::<Elision>::empty());
                        assert(out@ =~= before + code@.subrange(from, end as int));
                    }
                },
            }
        },
        None => {
            let n: usize = node.children.len();
            if n == 0 {
                append_range(out, code, start, end);
                *cursor = end;
                proof {
                    assert(elisions(*node, grammar@) =~= Seq::<Elision>::empty());
                    assert(out@ =~= before + code@.subrange(from, end as int));
                }
            } else {
                let mut i: usize = 0;
                while i < n
                    invariant
                        n == node.children@.len(),
                        i <= n,
                        node.wf(),
                        node.end_byte <= code@.len(),
                        0 <= from <= node.start_byte <= *cursor <= node.end_byte,
                        i == 0 ==> *cursor == node.start_byte,
                        i > 0 ==> *cursor <= node.children@[i - 1].end_byte,
                        i > 0 ==> *cursor == cursor_after(node.children@[i - 1], grammar@),
                        ordered(
                            elisions_of_first(node.children@, grammar@, i as nat),
                            from,
                            *cursor as int,
                        ),
                        out@ == before + assemble_from(
                            code@,
                            elisions_of_first(node.children@, grammar@, i as nat),
                            from,
                            *cursor as int,
                        ),
                    decreases n - i,
                {
                    let child = &node.children[i];
                    let ghost written = out@;
                    let ghost at = *cursor as int;
                    let ghost done = elisions_of_first(node.children@, grammar@, i as nat);
                    proof {
                        assert(node.children@[i as int] == *child);
                        if i > 0 {
                            assert(node.children@[i - 1].end_byte <= node.children@[i as int].start_byte);
                        }
                    }
                    walk(child, code, grammar, out, cursor);
                    proof {
                        let more = elisions(*child, grammar@);
                        assert(elisions_of_first(node.children@, grammar@, (i + 1) as nat) == done
                            + more);
                        lemma_ordered_concat(done, more, from, at, *cursor as int);
                        lemma_assemble_concat(code@, done, more, from, at, *cursor as int);
                        assert(out@ =~= before + (assemble_from(code@, done, from, at)
                            + assemble_from(code@, more, at, *cursor as int)));
                    }
                    i += 1;
                }
            }
        },
    }
}

/// What `first_of_kind` finds is an index of a node of that kind.
pub proof fn lemma_first_of_kind_in_range(nodes: Seq<SyntaxNode>, kind: Seq<char>, from: int)
    ensures
        match first_of_kind(nodes, kind, from) {
            Some(i) => from <= i < nodes.len() && 0 <= i && nodes[i].kind@ == kind,
            None => true,
        },
    decreases nodes.len() - from,
{
    if 0 <= from < nodes.len() && nodes[from].kind@ != kind {
        lemma_first_of_kind_in_range(nodes, kind, from + 1);
    }
}

/// Whether the walker meets a function node without a body under `root`:
/// such a node is copied as it stands, which a caller may wish to report.
pub fn spec_body_not_found(root: &SyntaxNode, grammar: &LanguageGrammar) -> (found: bool)
    ensures
        found == lacks_body(*root, grammar@),
    decreases root,
{
    match grammar.find_spec(&root.kind) {
        Some(k) => {
            let spec = &grammar.function_specs[k];
            assert(grammar@.function_specs[k as int] == spec@);
            find_body(root, &spec.function_body).is_none()
        },
        None => {
            let n: usize = root.children.len();
            let mut i: usize = 0;
            while i < n
                invariant
                    n == root.children@.len(),
                    i <= n,
                    grammar@.spec_index(root.kind@).is_none(),
                    forall|j: int|
                        0 <= j < i ==> !lacks_body(#[trigger] root.children@[j], grammar@),
                decreases n - i,
            {
                if spec_body_not_found(&root.children[i], grammar) {
                    assert(lacks_body(root.children@[i as int], grammar@));
                    return true;
                }
                i += 1;
            }
            false
        },
    }
}

/// The text of `code` with the body of every function of `root` that no
/// other function encloses replaced by its placeholder, and every other
/// byte kept.
pub fn elide(root: &SyntaxNode, code: &[u8], grammar: &LanguageGrammar) -> (out: Vec<u8>)
    requires
        root.wf(),
        root.end_byte <= code@.len(),
    ensures
        out@ == rendered(code@, *root, grammar@),
{
    let mut out: Vec<u8> = Vec::new();
    let mut cursor: usize = 0;
    walk(root, code, grammar, &mut out, &mut cursor);
    let ghost els = elisions(*root, grammar@);
    proof {
        lemma_assemble_extend(code@, els, 0, cursor as int, code@.len() as int);
        lemma_assemble_from_start(code@, els, code@.len() as int);
        assert(Seq::<u8>::empty() + assemble_from(code@, els, 0, cursor as int)
            =~= assemble_from(code@, els, 0, cursor as int));
    }
    if cursor < code.len() {
        append_range(&mut out, code, cursor, code.len());
    } else {
        assert(code@.subrange(cursor as int, code@.len() as int) =~= Seq::<u8>::empty());
    }
    out
}

} // verus!
