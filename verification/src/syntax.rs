//! The syntax tree of a Rust text, as tree-sitter's Rust grammar parses it,
//! held as a list of nodes in preorder with their depths, and the questions
//! the passes ask of it (subtree, parent, children, fields, siblings).

use vstd::prelude::*;
use crate::text::{byte_len, char_utf8_len, utf8_len};

verus! {

/// One node of the syntax tree: its kind, the field under which its parent
/// holds it, whether the grammar names it, its depth below the root, and the
/// range of text that it spans. The parser reports the range in bytes;
/// `syntax_tree` turns it into character indices.
pub struct SyntaxNode {
    pub kind: String,
    pub field: Option<String>,
    pub named: bool,
    pub depth: usize,
    pub start: usize,
    pub end: usize,
}

pub struct NodeView {
    pub kind: Seq<char>,
    pub field: Option<Seq<char>>,
    pub named: bool,
    pub depth: usize,
    pub start: usize,
    pub end: usize,
}

impl DeepView for SyntaxNode {
    type V = NodeView;

    open spec fn deep_view(&self) -> NodeView {
        NodeView {
            kind: self.kind@,
            field: match self.field {
                Some(f) => Some(f@),
                None => None,
            },
            named: self.named,
            depth: self.depth,
            start: self.start,
            end: self.end,
        }
    }
}

/// The nodes of the tree that tree-sitter's Rust grammar gives for `src`, in
/// preorder, with byte ranges into the UTF-8 encoding of `src`.
pub uninterp spec fn rust_syntax(src: Seq<char>) -> Seq<NodeView>;

/// Parses `src` with tree-sitter (`Parser::parse` under `tree_sitter_rust::LANGUAGE`)
/// and lists every node of the tree in preorder, with the node's `kind`, the
/// cursor's `field_name` and `depth`, `is_named`, `start_byte` and `end_byte`.
/// The contract claims only that the list is a function of `src` alone.
/// The parser keeps offsets in 32 bits, hence the bound on the length.
#[verifier::external_body]
fn parse_rust(src: &Vec<char>) -> (nodes: Vec<SyntaxNode>)
    requires
        byte_len(src@) < u32::MAX,
    ensures
        nodes.deep_view() == rust_syntax(src@),
{
    let mut parser = tree_sitter::Parser::new();
    parser.set_language(&tree_sitter_rust::LANGUAGE.into()).unwrap();
    let tree = parser.parse(String::from_iter(src.iter()), None).unwrap();
    let mut cursor = tree.walk();
    let mut nodes = Vec::new();
    for i in 0..tree.root_node().descendant_count() {
        cursor.goto_descendant(i);
        let n = cursor.node();
        let field = cursor.field_name().map(String::from);
        let depth = cursor.depth() as usize;
        nodes.push(SyntaxNode { kind: n.kind().into(), field, named: n.is_named(), depth, start: n.start_byte(), end: n.end_byte() });
    }
    nodes
}

/// For each byte offset into the UTF-8 encoding of `s`, the index of the
/// character that starts there, or `None` inside a character.
pub open spec fn byte_table(s: Seq<char>) -> Seq<Option<usize>>
    decreases s.len(),
{
    if s.len() == 0 {
        seq![Some(0usize)]
    } else {
        byte_table(s.drop_last()) + Seq::new((utf8_len(s.last()) - 1) as nat, |i: int| None::<usize>)
            + seq![Some(s.len() as usize)]
    }
}

pub proof fn lemma_byte_table_len(s: Seq<char>)
    ensures
        byte_table(s).len() == byte_len(s) + 1,
    decreases s.len(),
{
    if s.len() > 0 {
        lemma_byte_table_len(s.drop_last());
    }
}

fn build_byte_table(v: &Vec<char>) -> (t: Vec<Option<usize>>)
    ensures
        t@ == byte_table(v@),
{
    let mut t: Vec<Option<usize>> = Vec::new();
    t.push(Some(0));
    assert(v@.take(0) =~= Seq::<char>::empty());
    let mut i: usize = 0;
    while i < v.len()
        invariant
            i <= v@.len(),
            t@ == byte_table(v@.take(i as int)),
        decreases v@.len() - i,
    {
        let n = char_utf8_len(v[i]);
        let ghost before = t@;
        let mut j: usize = 1;
        while j < n
            invariant
                1 <= j <= n <= 4,
                t@ == before + Seq::new((j - 1) as nat, |k: int| None::<usize>),
            decreases n - j,
        {
            t.push(None);
            j = j + 1;
            assert(t@ =~= before + Seq::new((j - 1) as nat, |k: int| None::<usize>));
        }
        t.push(Some(i + 1));
        assert(v@.take(i + 1).drop_last() =~= v@.take(i as int));
        i = i + 1;
        assert(t@ =~= byte_table(v@.take(i as int)));
    }
    assert(v@.take(v@.len() as int) =~= v@);
    t
}

/// The character index that byte offset `b` stands for, if any.
pub open spec fn char_index(table: Seq<Option<usize>>, b: usize) -> Option<usize> {
    if b < table.len() {
        table[b as int]
    } else {
        None
    }
}

/// `n` with its byte range turned into a character range.
pub open spec fn remap(n: NodeView, table: Seq<Option<usize>>) -> Option<NodeView> {
    match (char_index(table, n.start), char_index(table, n.end)) {
        (Some(a), Some(b)) => Some(
            NodeView { kind: n.kind, field: n.field, named: n.named, depth: n.depth, start: a, end: b },
        ),
        _ => None,
    }
}

pub open spec fn all_remap(t: Seq<NodeView>, table: Seq<Option<usize>>) -> bool {
    forall|k: int| 0 <= k < t.len() ==> (#[trigger] remap(t[k], table)) is Some
}

pub open spec fn remapped(t: Seq<NodeView>, table: Seq<Option<usize>>) -> Seq<NodeView> {
    Seq::new(t.len(), |k: int| remap(t[k], table).unwrap())
}

/// A list of nodes that describes a tree: one root, each later node at most one
/// level below its predecessor, and each range inside the text.
pub open spec fn tree_ok(t: Seq<NodeView>, len: nat) -> bool {
    &&& t.len() > 0
    &&& t[0].depth == 0
    &&& forall|k: int| #![trigger t[k]] 1 <= k < t.len() ==> 1 <= t[k].depth <= t[k - 1].depth + 1
    &&& forall|k: int| #![trigger t[k]] 0 <= k < t.len() ==> t[k].start <= t[k].end <= len
}

/// The nodes `raw`, whose ranges count bytes of the UTF-8 encoding of `s`,
/// with their ranges turned into character indices, when every range falls
/// on character boundaries and the list describes a tree over `s`.
pub open spec fn tree_in_chars(raw: Seq<NodeView>, s: Seq<char>) -> Option<Seq<NodeView>> {
    let table = byte_table(s);
    if all_remap(raw, table) && tree_ok(remapped(raw, table), s.len()) {
        Some(remapped(raw, table))
    } else {
        None
    }
}

/// The syntax tree of `s` with character ranges, when the parser can take `s`
/// and what it gives back describes a tree over `s`.
pub open spec fn syntax_of(s: Seq<char>) -> Option<Seq<NodeView>> {
    if byte_len(s) >= u32::MAX {
        None
    } else {
        tree_in_chars(rust_syntax(s), s)
    }
}

fn clone_field(f: &Option<String>) -> (r: Option<String>)
    ensures
        match (r, *f) {
            (Some(a), Some(b)) => a@ == b@,
            (None, None) => true,
            _ => false,
        },
{
    match f {
        Some(s) => Some(s.clone()),
        None => None,
    }
}

/// The syntax tree of `text`, or `None` where `syntax_of` has none.
pub fn syntax_tree(text: &Vec<char>) -> (r: Option<Vec<SyntaxNode>>)
    ensures
        match r {
            Some(t) => syntax_of(text@) == Some(t.deep_view()),
            None => syntax_of(text@) is None,
        },
{
    let table = build_byte_table(text);
    proof {
        lemma_byte_table_len(text@);
    }
    if table.len() > 0xffff_ffff {
        return None;
    }
    let raw = parse_rust(text);
    remap_nodes(&raw, text, &table)
}

/// `tree_in_chars`: the nodes of a parse of `text`, given with byte ranges,
/// with character ranges in their place.
pub fn nodes_in_chars(raw: &Vec<SyntaxNode>, text: &Vec<char>) -> (r: Option<Vec<SyntaxNode>>)
    ensures
        match r {
            Some(t) => tree_in_chars(raw.deep_view(), text@) == Some(t.deep_view()),
            None => tree_in_chars(raw.deep_view(), text@) is None,
        },
{
    let table = build_byte_table(text);
    remap_nodes(raw, text, &table)
}

fn remap_nodes(raw: &Vec<SyntaxNode>, text: &Vec<char>, table: &Vec<Option<usize>>) -> (r: Option<Vec<SyntaxNode>>)
    requires
        table@ == byte_table(text@),
    ensures
        match r {
            Some(t) => tree_in_chars(raw.deep_view(), text@) == Some(t.deep_view()),
            None => tree_in_chars(raw.deep_view(), text@) is None,
        },
{
    let ghost rawv = raw.deep_view();
    let ghost tv = table@;
    let mut out: Vec<SyntaxNode> = Vec::new();
    let mut k: usize = 0;
    while k < raw.len()
        invariant
            k <= raw@.len(),
            rawv == raw.deep_view(),
            tv == table@,
            tv == byte_table(text@),
            out@.len() == k,
            forall|j: int| 0 <= j < k ==> (#[trigger] remap(rawv[j], tv)) is Some,
            forall|j: int|
                0 <= j < k ==> #[trigger] out@[j].deep_view() == remap(rawv[j], tv).unwrap(),
        decreases raw@.len() - k,
    {
        let n = &raw[k];
        assert(n.deep_view() == rawv[k as int]);
        let a = if n.start < table.len() {
            table[n.start]
        } else {
            None
        };
        let b = if n.end < table.len() {
            table[n.end]
        } else {
            None
        };
        match (a, b) {
            (Some(a), Some(b)) => {
                let kind = n.kind.clone();
                let field = clone_field(&n.field);
                out.push(SyntaxNode { kind, field, named: n.named, depth: n.depth, start: a, end: b });
                assert(out@[k as int].deep_view() =~= remap(rawv[k as int], tv).unwrap());
            },
            _ => {
                assert(remap(rawv[k as int], tv) is None);
                assert(!all_remap(rawv, tv));
                return None;
            },
        }
        k = k + 1;
    }
    assert(out.deep_view() =~= remapped(rawv, tv));
    if !tree_shape_ok(&out, text.len()) {
        return None;
    }
    Some(out)
}

fn tree_shape_ok(t: &Vec<SyntaxNode>, len: usize) -> (r: bool)
    ensures
        r == tree_ok(t.deep_view(), len as nat),
{
    let ghost tv = t.deep_view();
    if t.len() == 0 || t[0].depth != 0 {
        return false;
    }
    let mut k: usize = 0;
    while k < t.len()
        invariant
            tv == t.deep_view(),
            tv.len() == t@.len(),
            0 < t@.len(),
            tv[0].depth == 0,
            k <= t@.len(),
            forall|j: int| 1 <= j < k ==> 1 <= #[trigger] tv[j].depth <= tv[j - 1].depth + 1,
            forall|j: int| 0 <= j < k ==> #[trigger] tv[j].start <= tv[j].end <= len,
        decreases t@.len() - k,
    {
        assert(t[k as int].deep_view() == tv[k as int]);
        if k > 0 {
            assert(t[k - 1].deep_view() == tv[k - 1]);
            if t[k].depth < 1 || t[k].depth - 1 > t[k - 1].depth {
                assert(!(1 <= tv[k as int].depth <= tv[k - 1].depth + 1));
                return false;
            }
        }
        if t[k].start > t[k].end || t[k].end > len {
            assert(!(tv[k as int].start <= tv[k as int].end <= len));
            assert(!tree_ok(tv, len as nat));
            return false;
        }
        k = k + 1;
    }
    true
}

/// First index after `i`, from `k` on, of a node not below `i` (or the end).
pub open spec fn scan_end(t: Seq<NodeView>, i: int, k: int) -> int
    decreases t.len() - k,
{
    if k >= t.len() {
        t.len() as int
    } else if t[k].depth <= t[i].depth {
        k
    } else {
        scan_end(t, i, k + 1)
    }
}

/// Index just past the subtree rooted at `i`: the nodes `i..subtree_end(t, i)`
/// are `i` and its descendants.
pub open spec fn subtree_end(t: Seq<NodeView>, i: int) -> int {
    scan_end(t, i, i + 1)
}

pub proof fn lemma_scan_end(t: Seq<NodeView>, i: int, k: int)
    requires
        0 <= i < k <= t.len(),
    ensures
        k <= scan_end(t, i, k) <= t.len(),
        forall|j: int| k <= j < scan_end(t, i, k) ==> t[j].depth > t[i].depth,
        scan_end(t, i, k) < t.len() ==> t[scan_end(t, i, k)].depth <= t[i].depth,
    decreases t.len() - k,
{
    if k < t.len() && t[k].depth > t[i].depth {
        lemma_scan_end(t, i, k + 1);
    }
}

pub proof fn lemma_subtree_end(t: Seq<NodeView>, i: int)
    requires
        0 <= i < t.len(),
    ensures
        i < subtree_end(t, i) <= t.len(),
        forall|j: int| i < j < subtree_end(t, i) ==> t[j].depth > t[i].depth,
        subtree_end(t, i) < t.len() ==> t[subtree_end(t, i)].depth <= t[i].depth,
{
    lemma_scan_end(t, i, i + 1);
}

pub fn subtree_end_of(t: &Vec<SyntaxNode>, i: usize) -> (r: usize)
    requires
        i < t@.len(),
    ensures
        r == subtree_end(t.deep_view(), i as int),
        i < r <= t@.len(),
{
    let ghost tv = t.deep_view();
    proof {
        lemma_subtree_end(tv, i as int);
    }
    let len = t.len();
    let mut k = i + 1;
    while k < len
        invariant
            tv == t.deep_view(),
            tv.len() == t@.len(),
            i < k <= t@.len(),
            len == t@.len(),
            scan_end(tv, i as int, k as int) == subtree_end(tv, i as int),
        decreases t@.len() - k,
    {
        if t[k].depth <= t[i].depth {
            return k;
        }
        k = k + 1;
    }
    k
}

/// `k` has no child.
pub open spec fn is_leaf(t: Seq<NodeView>, k: int) -> bool {
    k + 1 >= t.len() || t[k + 1].depth <= t[k].depth
}

/// Index of the nearest node before `k`, from `j` down, that lies above `k`
/// (-1 if none): the parent of `k` when searched from `k - 1`.
pub open spec fn scan_parent(t: Seq<NodeView>, k: int, j: int) -> int
    decreases j + 1,
{
    if j < 0 {
        -1
    } else if t[j].depth < t[k].depth {
        j
    } else {
        scan_parent(t, k, j - 1)
    }
}

/// The parent of node `k` (-1 for the root).
pub open spec fn parent(t: Seq<NodeView>, k: int) -> int {
    scan_parent(t, k, k - 1)
}

pub proof fn lemma_scan_parent(t: Seq<NodeView>, k: int, j: int)
    requires
        -1 <= j < k < t.len(),
    ensures
        -1 <= scan_parent(t, k, j) <= j,
    decreases j + 1,
{
    if j >= 0 && t[j].depth >= t[k].depth {
        lemma_scan_parent(t, k, j - 1);
    }
}

pub fn parent_of(t: &Vec<SyntaxNode>, k: usize) -> (r: Option<usize>)
    requires
        k < t@.len(),
    ensures
        match r {
            Some(p) => p == parent(t.deep_view(), k as int) && p < k,
            None => parent(t.deep_view(), k as int) == -1,
        },
{
    let ghost tv = t.deep_view();
    let mut j = k;
    while j > 0
        invariant
            tv == t.deep_view(),
            tv.len() == t@.len(),
            j <= k < t@.len(),
            scan_parent(tv, k as int, j - 1) == parent(tv, k as int),
        decreases j,
    {
        if t[j - 1].depth < t[k].depth {
            return Some(j - 1);
        }
        j = j - 1;
    }
    None
}

/// Number of named children of `i` among the nodes before `k`.
pub open spec fn named_children_before(t: Seq<NodeView>, i: int, k: int) -> nat
    decreases k - i,
{
    if k <= i + 1 {
        0
    } else {
        named_children_before(t, i, k - 1) + if t[k - 1].depth == t[i].depth + 1 && t[k
            - 1].named {
            1nat
        } else {
            0nat
        }
    }
}

/// `Node::named_child_count`.
pub open spec fn named_child_count(t: Seq<NodeView>, i: int) -> nat {
    named_children_before(t, i, subtree_end(t, i))
}

pub fn named_child_count_of(t: &Vec<SyntaxNode>, i: usize) -> (r: usize)
    requires
        i < t@.len(),
    ensures
        r == named_child_count(t.deep_view(), i as int),
{
    let ghost tv = t.deep_view();
    let end = subtree_end_of(t, i);
    let mut k = i + 1;
    let mut n: usize = 0;
    while k < end
        invariant
            tv == t.deep_view(),
            tv.len() == t@.len(),
            i < k <= end <= t@.len(),
            n == named_children_before(tv, i as int, k as int),
            n <= k - i - 1,
        decreases end - k,
    {
        if t[k].depth > t[i].depth && t[k].depth - t[i].depth == 1 && t[k].named {
            n = n + 1;
        }
        k = k + 1;
    }
    n
}

/// First child of `i`, from `k` on, held under field `f` (-1 if none).
pub open spec fn scan_field(t: Seq<NodeView>, i: int, k: int, f: Seq<char>) -> int
    decreases t.len() - k,
{
    if k >= t.len() || k >= subtree_end(t, i) {
        -1
    } else if t[k].depth == t[i].depth + 1 && t[k].field == Some(f) {
        k
    } else {
        scan_field(t, i, k + 1, f)
    }
}

/// `Node::child_by_field_name`.
pub open spec fn field_child(t: Seq<NodeView>, i: int, f: Seq<char>) -> int {
    scan_field(t, i, i + 1, f)
}

pub proof fn lemma_scan_field(t: Seq<NodeView>, i: int, k: int, f: Seq<char>)
    requires
        0 <= i < k,
    ensures
        scan_field(t, i, k, f) == -1 || (k <= scan_field(t, i, k, f) < t.len()
            && scan_field(t, i, k, f) < subtree_end(t, i)),
    decreases t.len() - k,
{
    if !(k >= t.len() || k >= subtree_end(t, i)) && !(t[k].depth == t[i].depth + 1 && t[k].field
        == Some(f)) {
        lemma_scan_field(t, i, k + 1, f);
    }
}

fn field_is(field: &Option<String>, name: &str) -> (r: bool)
    ensures
        r == (match *field {
            Some(s) => s@ == name@,
            None => false,
        }),
{
    match field {
        Some(s) => crate::text::str_is(s, name),
        None => false,
    }
}

pub fn field_child_of(t: &Vec<SyntaxNode>, i: usize, name: &str) -> (r: Option<usize>)
    requires
        i < t@.len(),
    ensures
        match r {
            Some(k) => k == field_child(t.deep_view(), i as int, name@) && i < k < t@.len(),
            None => field_child(t.deep_view(), i as int, name@) == -1,
        },
{
    let ghost tv = t.deep_view();
    let end = subtree_end_of(t, i);
    let mut k = i + 1;
    while k < end
        invariant
            tv == t.deep_view(),
            tv.len() == t@.len(),
            i < k <= end <= t@.len(),
            end == subtree_end(tv, i as int),
            scan_field(tv, i as int, k as int, name@) == field_child(tv, i as int, name@),
        decreases end - k,
    {
        if t[k].depth > t[i].depth && t[k].depth - t[i].depth == 1 && field_is(&t[k].field, name) {
            return Some(k);
        }
        k = k + 1;
    }
    None
}

/// First named child of `i`, from `k` on (-1 if none).
pub open spec fn scan_named(t: Seq<NodeView>, i: int, k: int) -> int
    decreases t.len() - k,
{
    if k >= t.len() || k >= subtree_end(t, i) {
        -1
    } else if t[k].depth == t[i].depth + 1 && t[k].named {
        k
    } else {
        scan_named(t, i, k + 1)
    }
}

/// `Node::named_child(0)`.
pub open spec fn first_named_child(t: Seq<NodeView>, i: int) -> int {
    scan_named(t, i, i + 1)
}

pub proof fn lemma_scan_named(t: Seq<NodeView>, i: int, k: int)
    requires
        0 <= i < k,
    ensures
        scan_named(t, i, k) == -1 || (k <= scan_named(t, i, k) < t.len()),
    decreases t.len() - k,
{
    if !(k >= t.len() || k >= subtree_end(t, i)) && !(t[k].depth == t[i].depth + 1
        && t[k].named) {
        lemma_scan_named(t, i, k + 1);
    }
}

pub fn first_named_child_of(t: &Vec<SyntaxNode>, i: usize) -> (r: Option<usize>)
    requires
        i < t@.len(),
    ensures
        match r {
            Some(k) => k == first_named_child(t.deep_view(), i as int) && i < k < t@.len(),
            None => first_named_child(t.deep_view(), i as int) == -1,
        },
{
    let ghost tv = t.deep_view();
    let end = subtree_end_of(t, i);
    let mut k = i + 1;
    while k < end
        invariant
            tv == t.deep_view(),
            tv.len() == t@.len(),
            i < k <= end <= t@.len(),
            end == subtree_end(tv, i as int),
            scan_named(tv, i as int, k as int) == first_named_child(tv, i as int),
        decreases end - k,
    {
        if t[k].depth > t[i].depth && t[k].depth - t[i].depth == 1 && t[k].named {
            return Some(k);
        }
        k = k + 1;
    }
    None
}

/// `Node::next_named_sibling().is_some()`: some later child of `p`'s parent is named.
pub open spec fn has_next_named_sibling(t: Seq<NodeView>, p: int) -> bool {
    let q = parent(t, p);
    &&& q >= 0
    &&& exists|k: int|
        subtree_end(t, p) <= k < subtree_end(t, q) && #[trigger] t[k].depth == t[p].depth
            && t[k].named
}

pub fn has_next_named_sibling_of(t: &Vec<SyntaxNode>, p: usize) -> (r: bool)
    requires
        p < t@.len(),
    ensures
        r == has_next_named_sibling(t.deep_view(), p as int),
{
    let ghost tv = t.deep_view();
    let q = match parent_of(t, p) {
        Some(q) => q,
        None => {
            return false;
        },
    };
    let start = subtree_end_of(t, p);
    let end = subtree_end_of(t, q);
    let mut k = start;
    while k < end
        invariant
            tv == t.deep_view(),
            tv.len() == t@.len(),
            start <= k,
            end <= t@.len(),
            p < t@.len(),
            q as int == parent(tv, p as int),
            start == subtree_end(tv, p as int),
            end == subtree_end(tv, q as int),
            forall|j: int| start <= j < k ==> !(#[trigger] tv[j].depth == tv[p as int].depth && tv[j].named),
        decreases end - k,
    {
        assert(tv[k as int] == t@[k as int].deep_view());
        assert(tv[p as int] == t@[p as int].deep_view());
        if t[k].depth == t[p].depth && t[k].named {
            assert(tv[k as int].depth == tv[p as int].depth && tv[k as int].named);
            return true;
        }
        k = k + 1;
    }
    false
}

} // verus!
