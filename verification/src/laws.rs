//! What holds of every rendering: the fragments of the output cover the
//! source without gap or overlap, a text without functions is unchanged,
//! what lies inside a function's body is gone with it, and what lies between
//! two functions stays where it was.

use vstd::prelude::*;
use crate::elide::{
    assemble, assemble_from, cursor_after, elision_of, elisions, elisions_of_first, first_of_kind,
    lemma_assemble_concat, lemma_assemble_from_start, lemma_first_of_kind_in_range,
    lemma_ordered_concat, ordered, rendered, Elision,
};
use crate::languages::{registered_grammar, GrammarView, Language};
use crate::process::{outcome, processed, RenderError};
use crate::provider::{parsed_tree, ParseError};
use crate::tree::SyntaxNode;

verus! {

/// One piece of the output: the source span `[start, end)` that it stands
/// for, and the replacement written for it, or none where the span is copied.
pub struct Fragment {
    pub start: int,
    pub end: int,
    pub replacement: Option<Seq<u8>>,
}

/// The fragment that copies `[start, end)`.
pub open spec fn copied(start: int, end: int) -> Fragment {
    Fragment { start, end, replacement: None }
}

/// The fragment that stands for an elision.
pub open spec fn replaced(e: Elision) -> Fragment {
    Fragment { start: e.start as int, end: e.end as int, replacement: Some(e.replacement) }
}

/// The fragments of the output up to the source offset `upto`, from left to
/// right: a copied span before each elision, the elision, and a copied span
/// after the last.
pub open spec fn fragments(els: Seq<Elision>, upto: int) -> Seq<Fragment>
    decreases els.len(),
{
    if els.len() == 0 {
        seq![copied(0, upto)]
    } else {
        let e = els.last();
        fragments(els.drop_last(), e.start as int) + seq![replaced(e), copied(e.end as int, upto)]
    }
}

/// The bytes that a fragment contributes to the output.
pub open spec fn fragment_text(f: Fragment, code: Seq<u8>) -> Seq<u8> {
    match f.replacement {
        Some(text) => text,
        None => code.subrange(f.start, f.end),
    }
}

/// The texts of the fragments, one after the other.
pub open spec fn joined(frags: Seq<Fragment>, code: Seq<u8>) -> Seq<u8>
    decreases frags.len(),
{
    if frags.len() == 0 {
        Seq::empty()
    } else {
        joined(frags.drop_last(), code) + fragment_text(frags.last(), code)
    }
}

/// The spans of the fragments cover `[lo, hi)` from left to right: the
/// first starts at `lo`, each starts where the one before it ends, none is
/// reversed, and the last ends at `hi`.
pub open spec fn tiles(frags: Seq<Fragment>, lo: int, hi: int) -> bool {
    &&& frags.len() > 0
    &&& frags[0].start == lo
    &&& frags.last().end == hi
    &&& forall|i: int| 0 <= i < frags.len() ==> (#[trigger] frags[i]).start <= frags[i].end
    &&& forall|i: int| 0 <= i < frags.len() - 1 ==> (#[trigger] frags[i]).end == frags[i + 1].start
}

/// Whether `node` or a node under it is a function of the grammar.
pub open spec fn has_function(node: SyntaxNode, grammar: GrammarView) -> bool
    decreases node,
{
    grammar.spec_index(node.kind@).is_some() || exists|i: int|
        0 <= i < node.children@.len() && has_function(#[trigger] node.children@[i], grammar)
}

/// Whether `inner` is `node` or a node under it.
pub open spec fn within(node: SyntaxNode, inner: SyntaxNode) -> bool
    decreases node,
{
    node == inner || exists|i: int|
        0 <= i < node.children@.len() && within(#[trigger] node.children@[i], inner)
}

/// The elisions under a well-formed node lie within the node, in order and
/// without overlap.
pub proof fn lemma_elisions_ordered(node: SyntaxNode, grammar: GrammarView)
    requires
        node.wf(),
    ensures
        ordered(elisions(node, grammar), node.start_byte as int, node.end_byte as int),
    decreases node, 0nat,
{
    match grammar.spec_index(node.kind@) {
        Some(k) => {
            let kind = grammar.function_specs[k].function_body;
            lemma_first_of_kind_in_range(node.children@, kind, 0);
            match first_of_kind(node.children@, kind, 0) {
                Some(b) => {
                    assert(node.children@[b].wf());
                },
                None => {},
            }
        },
        None => {
            let n = node.children@.len();
            lemma_siblings_ordered(
                node.children@,
                grammar,
                n,
                node.start_byte as int,
                node.end_byte as int,
            );
        },
    }
}

/// The elisions under the first `n` of a row of well-formed siblings within
/// `[lo, hi)` lie within `[lo, hi)`, and end where the last of those
/// siblings ends at the latest.
pub proof fn lemma_siblings_ordered(
    nodes: Seq<SyntaxNode>,
    grammar: GrammarView,
    n: nat,
    lo: int,
    hi: int,
)
    requires
        n <= nodes.len(),
        lo <= hi,
        forall|i: int|
            0 <= i < nodes.len() ==> (#[trigger] nodes[i]).wf() && lo <= nodes[i].start_byte
                && nodes[i].end_byte <= hi,
        forall|i: int, j: int|
            0 <= i < j < nodes.len() ==> (#[trigger] nodes[i]).end_byte <= (
            #[trigger] nodes[j]).start_byte,
    ensures
        ordered(
            elisions_of_first(nodes, grammar, n),
            lo,
            if n == 0 {
                lo
            } else {
                nodes[n - 1].end_byte as int
            },
        ),
    decreases nodes, n,
{
    if n > 0 {
        let last = nodes[n - 1];
        assert(last.wf());
        lemma_siblings_ordered(nodes, grammar, (n - 1) as nat, lo, hi);
        lemma_elisions_ordered(last, grammar);
        let before = elisions_of_first(nodes, grammar, (n - 1) as nat);
        if n > 1 {
            assert(nodes[n - 2].end_byte <= nodes[n - 1].start_byte);
        }
        lemma_ordered_widen(before, lo, if n == 1 {
            lo
        } else {
            nodes[n - 2].end_byte as int
        }, lo, last.start_byte as int);
        lemma_ordered_concat(
            before,
            elisions(last, grammar),
            lo,
            last.start_byte as int,
            last.end_byte as int,
        );
    }
}

/// Ordered elisions within a range lie within every wider range.
pub proof fn lemma_ordered_widen(els: Seq<Elision>, lo: int, hi: int, lower: int, higher: int)
    requires
        ordered(els, lo, hi),
        lower <= lo,
        hi <= higher,
    ensures
        ordered(els, lower, higher),
{
}

/// The texts of two rows of fragments, joined, are the text of the two rows
/// put together.
pub proof fn lemma_joined_concat(a: Seq<Fragment>, b: Seq<Fragment>, code: Seq<u8>)
    ensures
        joined(a + b, code) == joined(a, code) + joined(b, code),
    decreases b.len(),
{
    if b.len() == 0 {
        assert(a + b =~= a);
        assert(joined(a, code) + joined(b, code) =~= joined(a, code));
    } else {
        lemma_joined_concat(a, b.drop_last(), code);
        assert((a + b).drop_last() =~= a + b.drop_last());
        assert((a + b).last() == b.last());
        assert((joined(a, code) + joined(b.drop_last(), code)) + fragment_text(b.last(), code)
            =~= joined(a, code) + (joined(b.drop_last(), code) + fragment_text(b.last(), code)));
    }
}

/// The fragments, joined, are the assembled text.
pub proof fn lemma_fragments_text(code: Seq<u8>, els: Seq<Elision>, upto: int)
    ensures
        joined(fragments(els, upto), code) == assemble(code, els, upto),
    decreases els.len(),
{
    if els.len() == 0 {
        let one = seq![copied(0, upto)];
        assert(one.drop_last() =~= Seq::<Fragment>::empty());
        assert(joined(one.drop_last(), code) =~= Seq::<u8>::empty());
        assert(joined(one, code) =~= code.subrange(0, upto));
    } else {
        let e = els.last();
        let head = fragments(els.drop_last(), e.start as int);
        let tail = seq![replaced(e), copied(e.end as int, upto)];
        lemma_fragments_text(code, els.drop_last(), e.start as int);
        lemma_joined_concat(head, tail, code);
        assert(tail.drop_last() =~= seq![replaced(e)]);
        assert(tail.drop_last().drop_last() =~= Seq::<Fragment>::empty());
        assert(joined(tail.drop_last().drop_last(), code) =~= Seq::<u8>::empty());
        assert(joined(tail.drop_last(), code) =~= e.replacement);
        assert(joined(tail, code) =~= e.replacement + code.subrange(e.end as int, upto));
        assert(joined(head, code) + (e.replacement + code.subrange(e.end as int, upto))
            =~= (joined(head, code) + e.replacement) + code.subrange(e.end as int, upto));
    }
}

/// The fragments of ordered elisions cover the source up to `upto`.
pub proof fn lemma_fragments_tile(els: Seq<Elision>, upto: int)
    requires
        ordered(els, 0, upto),
        0 <= upto,
    ensures
        tiles(fragments(els, upto), 0, upto),
    decreases els.len(),
{
    if els.len() > 0 {
        let e = els.last();
        let rest = els.drop_last();
        assert(e == els[els.len() - 1]);
        assert forall|i: int| 0 <= i < rest.len() implies 0 <= (#[trigger] rest[i]).start
            <= rest[i].end <= e.start by {
            assert(rest[i] == els[i]);
        }
        assert forall|i: int, j: int| 0 <= i < j < rest.len() implies (#[trigger] rest[i]).end <= (
        #[trigger] rest[j]).start by {
            assert(rest[i] == els[i] && rest[j] == els[j]);
        }
        lemma_fragments_tile(rest, e.start as int);
        let head = fragments(rest, e.start as int);
        let tail = seq![replaced(e), copied(e.end as int, upto)];
        let all = head + tail;
        assert(all[0] == head[0]);
        assert(all.last() == tail[1]);
        assert forall|i: int| 0 <= i < all.len() implies (#[trigger] all[i]).start
            <= all[i].end by {
            if i < head.len() {
                assert(all[i] == head[i]);
            } else {
                assert(all[i] == tail[i - head.len()]);
            }
        }
        assert forall|i: int| 0 <= i < all.len() - 1 implies (#[trigger] all[i]).end == all[i
            + 1].start by {
            if i < head.len() - 1 {
                assert(all[i] == head[i] && all[i + 1] == head[i + 1]);
            } else if i == head.len() - 1 {
                assert(all[i] == head.last() && all[i + 1] == tail[0]);
            } else {
                assert(all[i] == tail[0] && all[i + 1] == tail[1]);
            }
        }
    }
}

/// Coverage: the output of the walker is a row of fragments, each a copied
/// span of the source or a replacement that stands for a function body's
/// span, and these spans cover the whole source from left to right with no
/// gap and no overlap.
pub proof fn coverage(root: SyntaxNode, code: Seq<u8>, grammar: GrammarView)
    requires
        root.wf(),
        root.end_byte <= code.len(),
    ensures
        tiles(fragments(elisions(root, grammar), code.len() as int), 0, code.len() as int),
        joined(fragments(elisions(root, grammar), code.len() as int), code) == rendered(
            code,
            root,
            grammar,
        ),
{
    let els = elisions(root, grammar);
    lemma_elisions_ordered(root, grammar);
    lemma_ordered_widen(els, root.start_byte as int, root.end_byte as int, 0, code.len() as int);
    lemma_fragments_tile(els, code.len() as int);
    lemma_fragments_text(code, els, code.len() as int);
}

/// A node without functions has no elisions.
pub proof fn lemma_no_function_no_elision(node: SyntaxNode, grammar: GrammarView)
    requires
        !has_function(node, grammar),
    ensures
        elisions(node, grammar) == Seq::<Elision>::empty(),
    decreases node, 0nat,
{
    lemma_no_functions_no_elisions(node.children@, grammar, node.children@.len());
}

/// A row of nodes without functions has no elisions.
pub proof fn lemma_no_functions_no_elisions(nodes: Seq<SyntaxNode>, grammar: GrammarView, n: nat)
    requires
        n <= nodes.len(),
        forall|i: int| 0 <= i < nodes.len() ==> !has_function(#[trigger] nodes[i], grammar),
    ensures
        elisions_of_first(nodes, grammar, n) == Seq::<Elision>::empty(),
    decreases nodes, n,
{
    if n > 0 {
        lemma_no_functions_no_elisions(nodes, grammar, (n - 1) as nat);
        assert(!has_function(nodes[n - 1], grammar));
        lemma_no_function_no_elision(nodes[n - 1], grammar);
        assert(Seq::<Elision>::empty() + Seq::<Elision>::empty() =~= Seq::<Elision>::empty());
    }
}

/// Verbatim outside functions: where no node of the tree is a function of
/// the grammar, the rendered text is the source.
pub proof fn no_function_no_change(root: SyntaxNode, code: Seq<u8>, grammar: GrammarView)
    requires
        !has_function(root, grammar),
    ensures
        rendered(code, root, grammar) == code,
{
    lemma_no_function_no_elision(root, grammar);
    assert(code.subrange(0, code.len() as int) =~= code);
}

/// A text whose tree is well formed and holds no function of its language
/// is rendered as it stands.
pub proof fn no_function_same_text(root: SyntaxNode, code: Seq<u8>, language: Language)
    requires
        root.wf(),
        root.end_byte <= code.len(),
        !has_function(root, registered_grammar(language)),
    ensures
        outcome(Ok::<SyntaxNode, ParseError>(root), code, language) == Ok::<
            Seq<u8>,
            RenderError,
        >(code),
{
    no_function_no_change(root, code, registered_grammar(language));
}

/// A text of a known language whose tree, as the parser gives it, is well
/// formed and holds no function of the language comes back unchanged.
pub proof fn no_function_same_result(root: SyntaxNode, code: Seq<u8>, language: Language)
    requires
        parsed_tree(language, code) == Ok::<SyntaxNode, ParseError>(root),
        root.wf(),
        root.end_byte <= code.len(),
        !has_function(root, registered_grammar(language)),
    ensures
        processed(Some(language), code) == Ok::<Seq<u8>, RenderError>(code),
{
    no_function_same_text(root, code, language);
}

/// What lies within a well-formed node is well formed and has its range
/// inside the node's.
pub proof fn lemma_within_range(node: SyntaxNode, inner: SyntaxNode)
    requires
        node.wf(),
        within(node, inner),
    ensures
        inner.wf(),
        node.start_byte <= inner.start_byte,
        inner.end_byte <= node.end_byte,
    decreases node,
{
    if node != inner {
        let i = choose|i: int|
            0 <= i < node.children@.len() && within(#[trigger] node.children@[i], inner);
        assert(node.children@[i].wf());
        lemma_within_range(node.children@[i], inner);
    }
}

/// Shallow elision: a function node with a body gives one elision, whatever
/// lies under it, and every node within its body, a function or not, has its range
/// inside that elision's span, so that none of its text is copied.
pub proof fn nested_is_subsumed(
    outer: SyntaxNode,
    grammar: GrammarView,
    body: int,
    inner: SyntaxNode,
)
    requires
        outer.wf(),
        grammar.spec_index(outer.kind@).is_some(),
        first_of_kind(
            outer.children@,
            grammar.function_specs[grammar.spec_index(outer.kind@).unwrap()].function_body,
            0,
        ) == Some(body),
        within(outer.children@[body], inner),
    ensures
        elisions(outer, grammar).len() == 1,
        elisions(outer, grammar)[0].start <= inner.start_byte,
        inner.end_byte <= elisions(outer, grammar)[0].end,
{
    let k = grammar.spec_index(outer.kind@).unwrap();
    let kind = grammar.function_specs[k].function_body;
    lemma_first_of_kind_in_range(outer.children@, kind, 0);
    assert(outer.children@[body].wf());
    lemma_within_range(outer.children@[body], inner);
    assert(elisions(outer, grammar) =~= seq![
        elision_of(outer, grammar.function_specs[k]).unwrap(),
    ]);
}

/// Nodes without elisions add nothing to the elisions of a row.
pub proof fn lemma_row_without_elisions(
    nodes: Seq<SyntaxNode>,
    grammar: GrammarView,
    from: nat,
    to: nat,
)
    requires
        from <= to <= nodes.len(),
        forall|k: int| from <= k < to ==> elisions(#[trigger] nodes[k], grammar).len() == 0,
    ensures
        elisions_of_first(nodes, grammar, to) == elisions_of_first(nodes, grammar, from),
    decreases to - from,
{
    if from < to {
        lemma_row_without_elisions(nodes, grammar, from, (to - 1) as nat);
        assert(elisions(nodes[to - 1], grammar).len() == 0);
        assert(elisions_of_first(nodes, grammar, (to - 1) as nat) + elisions(
            nodes[to - 1],
            grammar,
        ) =~= elisions_of_first(nodes, grammar, (to - 1) as nat));
    }
}

/// Fidelity between functions: where two nodes of a row of siblings give
/// one elision each and the siblings between them (comments and the like)
/// give none, the rendered text holds, after what was rendered before them,
/// the first one's placeholder, then the source from the first elision's end
/// to the second one's start unchanged, then the second one's placeholder.
pub proof fn between_functions_is_kept(
    code: Seq<u8>,
    nodes: Seq<SyntaxNode>,
    grammar: GrammarView,
    i: int,
    j: int,
    upto: int,
)
    requires
        0 <= i < j < nodes.len(),
        elisions(nodes[i], grammar).len() == 1,
        elisions(nodes[j], grammar).len() == 1,
        forall|k: int| i < k < j ==> elisions(#[trigger] nodes[k], grammar).len() == 0,
    ensures
        ({
            let before = elisions_of_first(nodes, grammar, i as nat);
            let a = elisions(nodes[i], grammar)[0];
            let b = elisions(nodes[j], grammar)[0];
            &&& nodes[i].wf() ==> nodes[i].start_byte <= a.start <= a.end <= nodes[i].end_byte
            &&& nodes[j].wf() ==> nodes[j].start_byte <= b.start <= b.end <= nodes[j].end_byte
            &&& elisions_of_first(nodes, grammar, (j + 1) as nat) == before.push(a).push(b)
            &&& assemble(code, before.push(a).push(b), upto) == assemble(
                code,
                before,
                a.start as int,
            ) + a.replacement + code.subrange(a.end as int, b.start as int) + b.replacement
                + code.subrange(b.end as int, upto)
        }),
{
    let before = elisions_of_first(nodes, grammar, i as nat);
    let a = elisions(nodes[i], grammar)[0];
    let b = elisions(nodes[j], grammar)[0];
    if nodes[i].wf() {
        lemma_elisions_ordered(nodes[i], grammar);
    }
    if nodes[j].wf() {
        lemma_elisions_ordered(nodes[j], grammar);
    }
    let one = elisions_of_first(nodes, grammar, (i + 1) as nat);
    assert(one == before + elisions(nodes[i], grammar));
    assert(one =~= before.push(a));
    lemma_row_without_elisions(nodes, grammar, (i + 1) as nat, j as nat);
    let two = elisions_of_first(nodes, grammar, (j + 1) as nat);
    assert(two == elisions_of_first(nodes, grammar, j as nat) + elisions(nodes[j], grammar));
    assert(two =~= before.push(a).push(b));
    assert(before.push(a).push(b).drop_last() =~= before.push(a));
    assert(before.push(a).drop_last() =~= before);
    assert(assemble(code, before.push(a), b.start as int) == assemble(code, before, a.start as int)
        + a.replacement + code.subrange(a.end as int, b.start as int));
}

/// A visit to a node without functions copies the source from the cursor
/// to where the visit ends, and inserts nothing.
pub proof fn visit_without_function_copies(
    node: SyntaxNode,
    code: Seq<u8>,
    grammar: GrammarView,
    from: int,
)
    requires
        !has_function(node, grammar),
    ensures
        assemble_from(code, elisions(node, grammar), from, cursor_after(node, grammar) as int)
            == code.subrange(from, cursor_after(node, grammar) as int),
{
    lemma_no_function_no_elision(node, grammar);
}

/// A visit to a function node with a body writes the source from the cursor
/// to the body's start and then the placeholder, once, and ends at the
/// node's end: nothing of what lies in the body is written.
pub proof fn visit_of_function_writes_placeholder(
    node: SyntaxNode,
    code: Seq<u8>,
    grammar: GrammarView,
    from: int,
)
    requires
        grammar.spec_index(node.kind@).is_some(),
        elisions(node, grammar).len() == 1,
        node.end_byte <= code.len(),
    ensures
        cursor_after(node, grammar) == node.end_byte,
        elisions(node, grammar)[0].end == node.end_byte,
        assemble_from(code, elisions(node, grammar), from, node.end_byte as int) == code.subrange(
            from,
            elisions(node, grammar)[0].start as int,
        ) + elisions(node, grammar)[0].replacement,
{
    let els = elisions(node, grammar);
    let e = els[0];
    assert(els.last() == e);
    assert(els.drop_last() =~= Seq::<Elision>::empty());
    assert(assemble_from(code, els.drop_last(), from, e.start as int) =~= code.subrange(
        from,
        e.start as int,
    ));
    assert(code.subrange(node.end_byte as int, node.end_byte as int) =~= Seq::<u8>::empty());
    assert(assemble_from(code, els, from, node.end_byte as int) =~= code.subrange(
        from,
        e.start as int,
    ) + e.replacement);
}

/// Five texts, one after the other.
pub open spec fn joins(
    pre: Seq<u8>,
    first: Seq<u8>,
    between: Seq<u8>,
    second: Seq<u8>,
    post: Seq<u8>,
) -> Seq<u8> {
    pre + first + between + second + post
}

/// Fidelity between any two elisions that follow one another, wherever
/// their functions stand in the tree: the assembled text holds the first
/// one's placeholder, then the source between the two spans unchanged, then
/// the second one's placeholder.
pub proof fn between_elisions_is_kept(code: Seq<u8>, els: Seq<Elision>, k: int, upto: int)
    requires
        ordered(els, 0, upto),
        upto <= code.len(),
        0 <= k,
        k + 1 < els.len(),
    ensures
        exists|pre: Seq<u8>, post: Seq<u8>|
            assemble(code, els, upto) == #[trigger] joins(
                pre,
                els[k].replacement,
                code.subrange(els[k].end as int, els[k + 1].start as int),
                els[k + 1].replacement,
                post,
            ),
{
    let a = els[k];
    let b = els[k + 1];
    let head = els.subrange(0, k + 2);
    let tail = els.subrange(k + 2, els.len() as int);
    let mid = b.end as int;
    assert(head + tail =~= els);
    assert forall|i: int| 0 <= i < head.len() implies 0 <= (#[trigger] head[i]).start
        <= head[i].end <= mid by {
        assert(head[i] == els[i]);
    }
    assert forall|i: int, j: int| 0 <= i < j < head.len() implies (#[trigger] head[i]).end <= (
    #[trigger] head[j]).start by {
        assert(head[i] == els[i] && head[j] == els[j]);
    }
    assert forall|i: int| 0 <= i < tail.len() implies mid <= (#[trigger] tail[i]).start
        <= tail[i].end <= upto by {
        assert(tail[i] == els[i + k + 2]);
    }
    assert forall|i: int, j: int| 0 <= i < j < tail.len() implies (#[trigger] tail[i]).end <= (
    #[trigger] tail[j]).start by {
        assert(tail[i] == els[i + k + 2] && tail[j] == els[j + k + 2]);
    }
    if tail.len() == 0 {
        assert(mid <= upto);
    } else {
        assert(tail[0] == els[k + 2]);
    }
    lemma_assemble_concat(code, head, tail, 0, mid, upto);
    lemma_assemble_from_start(code, els, upto);
    assert(head.last() == b);
    assert(head.drop_last() =~= els.subrange(0, k + 1));
    assert(head.drop_last().last() == a);
    assert(head.drop_last().drop_last() =~= els.subrange(0, k));
    let pre = assemble_from(code, els.subrange(0, k), 0, a.start as int);
    let post = code.subrange(b.end as int, mid) + assemble_from(code, tail, mid, upto);
    let between = code.subrange(a.end as int, b.start as int);
    assert(assemble_from(code, head.drop_last(), 0, b.start as int) == pre + a.replacement
        + between);
    assert(assemble_from(code, head, 0, mid) == pre + a.replacement + between + b.replacement
        + code.subrange(b.end as int, mid));
    assert(assemble(code, els, upto) =~= joins(pre, a.replacement, between, b.replacement, post));
}

} // verus!
