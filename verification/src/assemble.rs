//! Building the state graph of a lexer from the variants of the enum the
//! lexer is derived for.

use vstd::prelude::*;

use crate::error::Error;
use crate::graph::rope::{rest_of, Miss, Pattern, RopeView};
use crate::graph::{contains_id, grows, reaches, Range, lemma_distinct_ids_bounded, lemma_shaken_reachable, reachable, Fork, ForkView, Graph, GraphError, Node, NodeId, NodeView, Rope};
use crate::leaf::{Callback, Leaf};
use crate::parser::{Definition, Literal, Mode};
use crate::util::{bytes_to_regex_string, into_stack, pop_next, regex_escaped};
use crate::syntax::regex_syntax_parse;
use crate::graph::mir::lower;
use crate::graph::regex::{clamp, mir_len, rope_pattern};
use crate::graph::mir::MirView;

verus! {

broadcast use vstd::std_specs::vec::group_vec_axioms;

/// The fields of a variant: none, unnamed ones (their types), or named
/// ones.
#[derive(Clone, PartialEq, Eq, Debug)]
pub enum VariantFields {
    Unit,
    Unnamed(Vec<String>),
    Named,
}

/// An attribute on a variant.
#[derive(PartialEq, Eq, Debug)]
pub enum Attribute {
    /// `#[error]`: the variant produced on an error.
    Error,
    /// `#[end]`, no longer supported.
    End,
    /// `#[token(...)]`
    Token(Definition),
    /// `#[regex(...)]`
    Regex(Definition),
    /// Any other attribute.
    Other,
}

/// A variant of the enum: its name, its discriminant if one is written
/// (`usize::MAX` standing for one that is not an integer literal), its
/// fields and its attributes, in order.
#[derive(PartialEq, Eq, Debug)]
pub struct Variant {
    pub ident: String,
    pub discriminant: Option<usize>,
    pub fields: VariantFields,
    pub attrs: Vec<Attribute>,
}

/// What is wrong with the enum; variants and attributes are given by
/// their index.
#[derive(Debug)]
pub enum DeriveError {
    /// A discriminant outside `0..=size`.
    Discriminant { variant: usize, size: usize },
    /// Unnamed fields other than one.
    FieldCount { variant: usize, found: usize },
    /// Named fields.
    NamedFields { variant: usize },
    /// A second `#[error]`, and the variant of the one before it.
    DuplicateError { variant: usize, previous: usize },
    /// An `#[end]` attribute.
    End { variant: usize, attr: usize },
    /// A `#[token]` matching nothing.
    EmptyToken { variant: usize, attr: usize },
    /// A `#[regex]` that could not be added to the graph.
    Regex { variant: usize, attr: usize, error: Error },
    /// No `#[error]` variant.
    MissingError,
    /// Joining the definitions failed.
    Graph(GraphError),
}

/// The graph of a lexer: its root, whether it reads bytes rather than
/// text, and the index of the `#[error]` variant.
pub struct Built {
    pub graph: Graph<Leaf>,
    pub root: NodeId,
    pub mode: Mode,
    pub error: usize,
}

/// Number of `#[error]` attributes in a list of attributes.
pub open spec fn error_attrs(attrs: Seq<Attribute>) -> nat
    decreases attrs.len(),
{
    if attrs.len() == 0 {
        0
    } else {
        error_attrs(attrs.drop_last()) + if attrs.last() is Error { 1nat } else { 0nat }
    }
}

/// Number of `#[error]` attributes on the variants.
pub open spec fn error_count(variants: Seq<Variant>) -> nat
    decreases variants.len(),
{
    if variants.len() == 0 {
        0
    } else {
        error_count(variants.drop_last()) + error_attrs(variants.last().attrs@)
    }
}

/// The bytes a literal matches.
pub open spec fn literal_bytes(literal: Literal) -> Seq<u8> {
    match literal {
        Literal::Utf8(s) => vstd::utf8::encode_utf8(s@),
        Literal::Bytes(b) => b@,
    }
}

/// An attribute that is refused whatever else holds: `#[end]`, or a
/// `#[token]` matching nothing.
pub open spec fn bad_attr(a: Attribute) -> bool {
    ||| a is End
    ||| (a matches Attribute::Token(d) && literal_bytes(d.literal).len() == 0)
}

/// A variant that is refused whatever else holds: a discriminant outside
/// `0..size`, fields other than none or one unnamed, or a refused
/// attribute.
pub open spec fn bad_variant(v: Variant, size: nat) -> bool {
    ||| (v.discriminant matches Some(d) && d >= size)
    ||| (v.fields matches VariantFields::Unnamed(types) && types@.len() != 1)
    ||| v.fields is Named
    ||| exists|k: int| 0 <= k < v.attrs@.len() && bad_attr(#[trigger] v.attrs@[k])
}

/// What the enum must satisfy before any regex is looked at: no refused
/// variant, and exactly one `#[error]`.
pub open spec fn well_declared(variants: Seq<Variant>) -> bool {
    &&& forall|i: int| 0 <= i < variants.len() ==> !bad_variant(#[trigger] variants[i], variants.len())
    &&& error_count(variants) == 1
}

/// The bytes a `#[token]` matches.
pub open spec fn token_bytes(a: Attribute) -> Seq<u8> {
    match a {
        Attribute::Token(d) => literal_bytes(d.literal),
        _ => Seq::empty(),
    }
}

/// The first byte of a `#[token]` that matches something.
pub open spec fn token_first(a: Attribute) -> Option<u8> {
    if a is Token && token_bytes(a).len() > 0 {
        Some(token_bytes(a)[0])
    } else {
        None
    }
}

/// The pattern matching a run of bytes: one range per byte.
pub open spec fn bytes_pattern(bs: Seq<u8>) -> Seq<Range> {
    Seq::new(bs.len(), |i: int| Range(bs[i], bs[i]))
}

/// Whether the attribute `(i, k)` is one of the variants'.
pub open spec fn attr_at(vs: Seq<Variant>, o: (int, int)) -> bool {
    0 <= o.0 < vs.len() && 0 <= o.1 < vs[o.0].attrs@.len()
}

/// Whether every definition is a `#[token]` matching something, no two
/// of them starting with the same byte.
pub open spec fn distinct_first_bytes(vs: Seq<Variant>) -> bool {
    &&& forall|o: (int, int)| #[trigger] attr_at(vs, o) ==> !(vs[o.0].attrs@[o.1] is Regex) && (vs[o.0].attrs@[o.1] is Token ==> token_first(
        vs[o.0].attrs@[o.1],
    ) is Some)
    &&& forall|o: (int, int), p: (int, int)|
        #[trigger] attr_at(vs, o) && #[trigger] attr_at(vs, p) && o != p && vs[o.0].attrs@[o.1] is Token && vs[p.0].attrs@[p.1] is Token
            ==> token_first(vs[o.0].attrs@[o.1]) != token_first(vs[p.0].attrs@[p.1])
}

/// Whether byte `b` starts the token of one of the definitions.
pub open spec fn token_covers(vs: Seq<Variant>, b: int) -> bool {
    exists|o: (int, int)| #[trigger] attr_at(vs, o) && token_first(vs[o.0].attrs@[o.1]) == Some(b as u8) && 0 <= b < 256
}

/// Whether slot `id`, reached on the first range of pattern `p`, leads on
/// the other ranges to a leaf of variant `v` of the given priority: it is
/// that leaf when `p` has one range, else a rope of the other ranges
/// going to it and failing on a miss.
pub open spec fn rope_leads_to_leaf(g: Seq<Option<NodeView<Leaf>>>, id: NodeId, p: Seq<Range>, v: Variant, a: Attribute, priority: int) -> bool {
    if p.len() == 1 {
        leaf_of(g[id.index() as int], v, a, priority)
    } else {
        &&& g[id.index() as int] matches Some(NodeView::Rope(rv))
        &&& rv.pattern == p.drop_first()
        &&& rv.miss == Miss::Fail
        &&& 0 <= rv.target.index() < g.len()
        &&& leaf_of(g[rv.target.index() as int], v, a, priority)
    }
}

/// Whether slot `id` leads, on the bytes `bs` of a token after the first,
/// to the leaf of variant `v`, whose priority is the token's length.
pub open spec fn leads_to_leaf(g: Seq<Option<NodeView<Leaf>>>, id: NodeId, v: Variant, a: Attribute) -> bool {
    rope_leads_to_leaf(g, id, bytes_pattern(token_bytes(a)), v, a, token_bytes(a).len() as int)
}

/// Whether slot `id` is where the root sends byte `b`, the first byte of
/// the `#[token]` of a variant: it leads on the token's other bytes to
/// that variant's leaf.
pub open spec fn token_leaf(vs: Seq<Variant>, g: Seq<Option<NodeView<Leaf>>>, id: NodeId, b: int) -> bool {
    exists|o: (int, int)|
        #[trigger] attr_at(vs, o) && token_first(vs[o.0].attrs@[o.1]) == Some(b as u8) && leads_to_leaf(
            g,
            id,
            vs[o.0],
            vs[o.0].attrs@[o.1],
        )
}

/// Whether the attribute is a definition: a `#[token]` or a `#[regex]`.
pub open spec fn is_definition(a: Attribute) -> bool {
    a is Token || a is Regex
}

/// Whether the attribute `o` is the one definition of the enum.
pub open spec fn only_definition(vs: Seq<Variant>, o: (int, int)) -> bool {
    &&& attr_at(vs, o)
    &&& is_definition(vs[o.0].attrs@[o.1])
    &&& forall|q: (int, int)| #[trigger] attr_at(vs, q) && is_definition(vs[q.0].attrs@[q.1]) ==> q == o
}

/// What the text of a `#[regex]` lowers to, when it parses and lowers.
pub open spec fn regex_mir(a: Attribute) -> Option<MirView> {
    match a {
        Attribute::Regex(d) => {
            let (utf8, source) = match d.literal {
                Literal::Utf8(s) => (true, s@),
                Literal::Bytes(b) => (false, regex_escaped(b@)),
            };
            match regex_syntax_parse(utf8, source) {
                Ok(tree) => match lower(tree) {
                    Ok(m) => Some(m),
                    Err(_) => None,
                },
                Err(_) => None,
            }
        },
        _ => None,
    }
}

/// The pattern of the rope a `#[regex]` is built as, when its text parses
/// and lowers to a literal or a run of bytes.
pub open spec fn regex_rope_pattern(a: Attribute) -> Option<Seq<Range>> {
    match regex_mir(a) {
        Some(m) => rope_pattern(m),
        None => None,
    }
}

/// The priority of the leaf a `#[regex]` leads to: the length of what it
/// lowers to, as the graph counts it.
pub open spec fn regex_priority(a: Attribute) -> int {
    clamp(mir_len(regex_mir(a)->Some_0))
}

/// The graph once the one `#[regex]` `a` of variant `v`, built as a rope
/// of `p`, has been added: its leaf, of priority `priority`, and the rope
/// leading to it.
pub open spec fn regex_added(g: &Graph<Leaf>, ids: Seq<NodeId>, p: Seq<Range>, v: Variant, a: Attribute, priority: int) -> bool {
    &&& ids.len() == 1
    &&& g.closed()
    &&& g.has(ids[0])
    &&& g@.len() == 2
    &&& g@[ids[0].index() as int] matches Some(NodeView::Rope(rv))
    &&& rv.pattern == p
    &&& rv.miss == Miss::Fail
    &&& leaf_of(g@[rv.target.index() as int], v, a, priority)
}

/// Whether attribute `o` comes before position `(i, k)`.
pub open spec fn comes_before(o: (int, int), i: int, k: int) -> bool {
    o.0 < i || (o.0 == i && o.1 < k)
}

/// The rope made for the token attribute `o`: its bytes, going to the
/// leaf of the variant in a slot of the graph, failing on a miss.
pub open spec fn rope_from(vs: Seq<Variant>, rope: Rope, o: (int, int), g: Seq<Option<NodeView<Leaf>>>) -> bool {
    &&& attr_at(vs, o)
    &&& token_first(vs[o.0].attrs@[o.1]) is Some
    &&& rope@.pattern == bytes_pattern(token_bytes(vs[o.0].attrs@[o.1]))
    &&& rope@.miss == Miss::Fail
    &&& rope@.target.index() < g.len()
    &&& leaf_of(g[rope@.target.index() as int], vs[o.0], vs[o.0].attrs@[o.1], token_bytes(vs[o.0].attrs@[o.1]).len() as int)
}

/// The type of the value a variant carries: its one unnamed field, if it
/// has any.
pub open spec fn variant_field(v: Variant) -> Option<String> {
    match v.fields {
        VariantFields::Unnamed(types) => if types@.len() > 0 {
            Some(types@[0])
        } else {
            None
        },
        _ => None,
    }
}

/// The callback a definition gives its leaf: the one it names, and none
/// when it names none.
pub open spec fn attr_callback(a: Attribute) -> Callback {
    match a {
        Attribute::Token(d) => match d.callback {
            Some(c) => c,
            None => Callback::Nothing,
        },
        Attribute::Regex(d) => match d.callback {
            Some(c) => c,
            None => Callback::Nothing,
        },
        _ => Callback::Nothing,
    }
}

/// Whether a slot holds the leaf of definition `a` of variant `v`: the
/// variant's name and field, the definition's callback, and the given
/// priority.
pub open spec fn leaf_of(slot: Option<NodeView<Leaf>>, v: Variant, a: Attribute, priority: int) -> bool {
    &&& slot matches Some(NodeView::Leaf(l))
    &&& l.ident@ == v.ident@
    &&& l.priority == priority
    &&& l.field == variant_field(v)
    &&& l.callback == attr_callback(a)
}

/// The ropes made so far, up to position `(i, k)`: one per token attribute
/// before it, each for its own attribute, in a graph of leaves.
pub open spec fn tokens_tracked(
    vs: Seq<Variant>,
    ropes: Seq<Rope>,
    origin: Seq<(int, int)>,
    g: Seq<Option<NodeView<Leaf>>>,
    i: int,
    k: int,
) -> bool {
    &&& origin.len() == ropes.len()
    &&& g.len() == ropes.len()
    &&& forall|x: int| 0 <= x < ropes.len() ==> rope_from(vs, #[trigger] ropes[x], origin[x], g) && comes_before(origin[x], i, k)
    &&& forall|o: (int, int)| #[trigger] attr_at(vs, o) && comes_before(o, i, k) && vs[o.0].attrs@[o.1] is Token ==> origin.contains(o)
    &&& origin.no_duplicates()
    &&& forall|n: int| 0 <= n < g.len() ==> (#[trigger] g[n]) matches Some(NodeView::Leaf(_))
}

/// Distinct bytes are at most 256.
proof fn lemma_distinct_bytes_bounded(s: Seq<int>)
    requires
        s.no_duplicates(),
        forall|x: int| 0 <= x < s.len() ==> 0 <= #[trigger] s[x] < 256,
    ensures
        s.len() <= 256,
{
    s.unique_seq_to_set();
    vstd::set_lib::lemma_int_range(0, 256);
    assert(s.to_set().subset_of(vstd::set_lib::set_int_range(0, 256)));
    vstd::set_lib::lemma_len_subset(s.to_set(), vstd::set_lib::set_int_range(0, 256));
}

/// The ropes of tokens with distinct first bytes are at most 256.
proof fn lemma_tracked_bounded(vs: Seq<Variant>, ropes: Seq<Rope>, origin: Seq<(int, int)>, g: Seq<Option<NodeView<Leaf>>>, i: int, k: int)
    requires
        distinct_first_bytes(vs),
        tokens_tracked(vs, ropes, origin, g, i, k),
    ensures
        ropes.len() <= 256,
{
    let bytes = Seq::new(ropes.len(), |x: int| ropes[x]@.pattern[0].0 as int);
    assert forall|x: int, y: int| 0 <= x < y < bytes.len() implies bytes[x] != bytes[y] by {
        assert(rope_from(vs, ropes[x], origin[x], g));
        assert(rope_from(vs, ropes[y], origin[y], g));
        assert(origin[x] != origin[y]);
        assert(attr_at(vs, origin[x]) && attr_at(vs, origin[y]));
    }
    lemma_distinct_bytes_bounded(bytes);
}

/// Passing an attribute that is not a `#[token]` keeps the ropes tracked.
proof fn lemma_tracked_skip(vs: Seq<Variant>, ropes: Seq<Rope>, origin: Seq<(int, int)>, g: Seq<Option<NodeView<Leaf>>>, i: int, k: int)
    requires
        tokens_tracked(vs, ropes, origin, g, i, k),
        attr_at(vs, (i, k)),
        !(vs[i].attrs@[k] is Token),
    ensures
        tokens_tracked(vs, ropes, origin, g, i, k + 1),
{
    assert forall|o: (int, int)| #[trigger] attr_at(vs, o) && comes_before(o, i, k + 1) && vs[o.0].attrs@[o.1] is Token implies origin.contains(o) by {
        if o == (i, k) {
        } else {
            assert(comes_before(o, i, k));
        }
    }
}

/// Adding the rope of the `#[token]` at `(i, k)`, going to a leaf pushed
/// for it, keeps the ropes tracked.
proof fn lemma_tracked_token(
    vs: Seq<Variant>,
    ropes: Seq<Rope>,
    origin: Seq<(int, int)>,
    g: Seq<Option<NodeView<Leaf>>>,
    i: int,
    k: int,
    rope: Rope,
    leaf: NodeView<Leaf>,
)
    requires
        tokens_tracked(vs, ropes, origin, g, i, k),
        attr_at(vs, (i, k)),
        vs[i].attrs@[k] is Token,
        token_first(vs[i].attrs@[k]) is Some,
        rope@.pattern == bytes_pattern(token_bytes(vs[i].attrs@[k])),
        rope@.miss == Miss::Fail,
        rope@.target.index() == g.len(),
        leaf_of(Some(leaf), vs[i], vs[i].attrs@[k], token_bytes(vs[i].attrs@[k]).len() as int),
    ensures
        tokens_tracked(vs, ropes.push(rope), origin.push((i, k)), g.push(Some(leaf)), i, k + 1),
{
    let r2 = ropes.push(rope);
    let o2 = origin.push((i, k));
    let g2 = g.push(Some(leaf));
    assert forall|x: int| 0 <= x < r2.len() implies rope_from(vs, #[trigger] r2[x], o2[x], g2) && comes_before(o2[x], i, k + 1) by {
        if x < ropes.len() {
            assert(r2[x] == ropes[x]);
            assert(o2[x] == origin[x]);
            assert(rope_from(vs, ropes[x], origin[x], g));
            assert(g2[ropes[x]@.target.index() as int] == g[ropes[x]@.target.index() as int]);
        }
    }
    assert forall|o: (int, int)| #[trigger] attr_at(vs, o) && comes_before(o, i, k + 1) && vs[o.0].attrs@[o.1] is Token implies o2.contains(o) by {
        if o == (i, k) {
            assert(o2[origin.len() as int] == o);
        } else {
            assert(comes_before(o, i, k));
            let x = choose|x: int| 0 <= x < origin.len() && origin[x] == o;
            assert(o2[x] == o);
        }
    }
    assert forall|a: int, b: int| 0 <= a < b < o2.len() implies o2[a] != o2[b] by {
        if b == origin.len() {
            assert(rope_from(vs, ropes[a], origin[a], g));
            assert(comes_before(origin[a], i, k));
        } else {
            assert(origin[a] != origin[b]);
        }
    }
    assert forall|n: int| 0 <= n < g2.len() implies (#[trigger] g2[n]) matches Some(NodeView::Leaf(_)) by {
        if n < g.len() {
            assert(g2[n] == g[n]);
        }
    }
}

/// Having passed every attribute of variant `i`, the ropes are tracked up
/// to the next variant.
proof fn lemma_tracked_next_variant(vs: Seq<Variant>, ropes: Seq<Rope>, origin: Seq<(int, int)>, g: Seq<Option<NodeView<Leaf>>>, i: int)
    requires
        0 <= i < vs.len(),
        tokens_tracked(vs, ropes, origin, g, i, vs[i].attrs@.len() as int),
    ensures
        tokens_tracked(vs, ropes, origin, g, i + 1, 0),
{
    assert forall|x: int| 0 <= x < ropes.len() implies comes_before(#[trigger] origin[x], i + 1, 0) by {
        assert(rope_from(vs, ropes[x], origin[x], g));
        assert(comes_before(origin[x], i, vs[i].attrs@.len() as int));
    }
    assert forall|x: int| 0 <= x < ropes.len() implies rope_from(vs, #[trigger] ropes[x], origin[x], g) && comes_before(origin[x], i + 1, 0) by {
        assert(comes_before(origin[x], i + 1, 0));
    }
    assert forall|o: (int, int)| #[trigger] attr_at(vs, o) && comes_before(o, i + 1, 0) && vs[o.0].attrs@[o.1] is Token implies origin.contains(o) by {
        assert(comes_before(o, i, vs[i].attrs@.len() as int));
    }
}

/// Whether a definition on some variant is a byte string.
pub open spec fn uses_bytes(variants: Seq<Variant>) -> bool {
    exists|i: int, k: int| 0 <= i < variants.len() && 0 <= k < variants[i].attrs@.len() && match #[trigger] variants[i].attrs@[k] {
        Attribute::Token(d) => d.literal is Bytes,
        Attribute::Regex(d) => d.literal is Bytes,
        _ => false,
    }
}

/// Whether the variant carries an `#[error]` attribute.
pub open spec fn has_error_attr(v: Variant) -> bool {
    exists|k: int| 0 <= k < v.attrs@.len() && (#[trigger] v.attrs@[k]) is Error
}

proof fn lemma_error_attrs_push(attrs: Seq<Attribute>, a: Attribute)
    ensures
        error_attrs(attrs.push(a)) == error_attrs(attrs) + if a is Error { 1nat } else { 0nat },
{
    assert(attrs.push(a).drop_last() == attrs);
}

proof fn lemma_error_attrs_zero(attrs: Seq<Attribute>)
    requires
        error_attrs(attrs) == 0,
    ensures
        forall|k: int| 0 <= k < attrs.len() ==> !((#[trigger] attrs[k]) is Error),
    decreases attrs.len(),
{
    if attrs.len() > 0 {
        lemma_error_attrs_zero(attrs.drop_last());
        assert forall|k: int| 0 <= k < attrs.len() implies !((#[trigger] attrs[k]) is Error) by {
            if k < attrs.len() - 1 {
                assert(attrs.drop_last()[k] == attrs[k]);
            }
        }
    }
}

/// The callback of a definition.
fn callback_of(callback: Option<Callback>) -> (r: Callback)
    ensures
        r == match callback {
            Some(c) => c,
            None => Callback::Nothing,
        },
{
    match callback {
        Some(c) => c,
        None => Callback::Nothing,
    }
}

/// Build the graph of a lexer from the variants of its enum.
///
/// Every `#[token]` adds a leaf of priority its length in bytes and a rope
/// leading to it; every `#[regex]` adds its nodes, leading to a leaf of
/// the regex's priority. Any refused declaration, failing regex or
/// failing join gives the list of what went wrong. Otherwise the root is a
/// fork joining the regexes and the tokens, the forks its miss leads to
/// are folded into it, and the nodes the root does not lead to are
/// removed.
pub fn build(variants: Vec<Variant>) -> (r: Result<Built, Vec<DeriveError>>)
    ensures
        !well_declared(variants@) ==> r is Err,
        forall|o: (int, int)|
            well_declared(variants@) && #[trigger] only_definition(variants@, o) ==> (regex_rope_pattern(variants@[o.0].attrs@[o.1]) matches Some(
                p,
            ) ==> (r matches Ok(built) && (built.graph@[built.root.index() as int] matches Some(NodeView::Fork(f)) && f.miss is None
                && (forall|b: int| 0 <= b < 256 ==> (#[trigger] f.lut[b] is Some <==> p[0].0 <= b <= p[0].1)) && (forall|b: int|
                #![trigger f.lut[b]]
                0 <= b < 256 && p[0].0 <= b <= p[0].1 ==> (f.lut[b] matches Some(n) && rope_leads_to_leaf(
                    built.graph@,
                    n,
                    p,
                    variants@[o.0],
                    variants@[o.0].attrs@[o.1],
                    regex_priority(variants@[o.0].attrs@[o.1]),
                )))))),
        well_declared(variants@) && distinct_first_bytes(variants@) ==> (r matches Ok(built) && (built.graph@[built.root.index() as int] matches Some(
            NodeView::Fork(f),
        ) && forall|b: int|
            0 <= b < 256 ==> (#[trigger] f.lut[b] is Some <==> token_covers(variants@, b)) && (f.lut[b] matches Some(id) ==> token_leaf(
                variants@,
                built.graph@,
                id,
                b,
            )))),
        r matches Err(errors) ==> errors@.len() > 0,
        r matches Ok(built) ==> {
            &&& well_declared(variants@)
            &&& built.graph.well_formed()
            &&& built.graph.closed()
            &&& built.graph.has(built.root)
            &&& built.graph@[built.root.index() as int] matches Some(NodeView::Fork(_))
            &&& forall|i: int| 0 <= i < built.graph@.len() && (#[trigger] built.graph@[i]) is Some ==> reachable(built.graph@, built.root.index() as int, i)
            &&& built.mode == (if uses_bytes(variants@) { Mode::Binary } else { Mode::Utf8 })
            &&& built.error < variants@.len()
            &&& has_error_attr(variants@[built.error as int])
        },
{
    let size = variants.len();
    let mut errors: Vec<DeriveError> = Vec::new();
    let mut error: Option<usize> = None;
    let mut mode = Mode::Utf8;
    let mut ropes: Vec<Rope> = Vec::new();
    let mut regex_ids: Vec<NodeId> = Vec::new();
    let mut graph: Graph<Leaf> = Graph::new();
    let ghost mut errors_seen: nat = 0;
    let ghost all = variants@;
    let ghost simple = distinct_first_bytes(variants@);
    let ghost single: bool = exists|o: (int, int)| #[trigger] only_definition(variants@, o) && regex_rope_pattern(variants@[o.0].attrs@[o.1]) is Some;
    let ghost pos: (int, int) = choose|o: (int, int)| #[trigger] only_definition(variants@, o) && regex_rope_pattern(variants@[o.0].attrs@[o.1]) is Some;
    let ghost pat: Seq<Range> = regex_rope_pattern(variants@[pos.0].attrs@[pos.1])->Some_0;
    let ghost pvar: Variant = variants@[pos.0];
    let ghost pattr: Attribute = variants@[pos.0].attrs@[pos.1];
    let ghost pprio: int = regex_priority(variants@[pos.0].attrs@[pos.1]);
    let ghost mut origin: Seq<(int, int)> = Seq::empty();
    proof {
        assert(graph@.len() == 0);
    }
    let mut stack = into_stack(variants);
    let mut i: usize = 0;
    while i < size
        invariant
            size == all.len(),
            all == variants@,
            stack@.reverse() == all.skip(i as int),
            i <= size,
            graph.well_formed(),
            forall|k: int| 0 <= k < regex_ids@.len() ==> graph.has(#[trigger] regex_ids@[k]),
            forall|k: int| 0 <= k < ropes@.len() ==> graph.fits(crate::graph::NodeView::Rope(#[trigger] ropes@[k]@)),
            errors_seen == error_count(all.take(i as int)),
            errors_seen == 0 <==> error is None,
            error matches Some(e) ==> e < i && has_error_attr(all[e as int]),
            errors_seen > 1 ==> errors@.len() > 0,
            (exists|j: int| 0 <= j < i && bad_variant(#[trigger] all[j], size as nat)) ==> errors@.len() > 0,
            simple == distinct_first_bytes(all),
            simple ==> regex_ids@.len() == 0 && tokens_tracked(all, ropes@, origin, graph@, i as int, 0),
            single == exists|o: (int, int)| #[trigger] only_definition(all, o) && regex_rope_pattern(all[o.0].attrs@[o.1]) is Some,
            single ==> only_definition(all, pos) && regex_rope_pattern(all[pos.0].attrs@[pos.1]) == Some(pat),
            pvar == all[pos.0] && pattr == all[pos.0].attrs@[pos.1] && pprio == regex_priority(all[pos.0].attrs@[pos.1]),
            single && !comes_before(pos, i as int, 0) ==> graph@.len() == 0 && regex_ids@.len() == 0 && ropes@.len() == 0,
            single && comes_before(pos, i as int, 0) ==> regex_added(&graph, regex_ids@, pat, pvar, pattr, pprio) && ropes@.len() == 0,
            errors@.len() > 0 ==> ((exists|j: int| 0 <= j < i && bad_variant(#[trigger] all[j], size as nat)) || errors_seen > 1
                || !(simple || single)),
            mode == (if exists|j: int, k: int| 0 <= j < i && 0 <= k < all[j].attrs@.len() && match #[trigger] all[j].attrs@[k] {
                Attribute::Token(d) => d.literal is Bytes,
                Attribute::Regex(d) => d.literal is Bytes,
                _ => false,
            } { Mode::Binary } else { Mode::Utf8 }),
        decreases size - i,
    {
        proof {
            assert(stack@.reverse().len() == size - i);
            assert(all.skip(i as int)[0] == all[i as int]);
        }
        let variant = pop_next(&mut stack);
        let ghost rest = stack@;
        let errors_before = errors.len();
        proof {
            assert(all.take(i + 1).drop_last() == all.take(i as int));
            assert(all.take(i + 1).last() == all[i as int]);
        }
        match variant.discriminant {
            Some(value) => {
                if value >= size {
                    errors.push(DeriveError::Discriminant { variant: i, size });
                }
            },
            None => {},
        }
        let field: Option<String> = match &variant.fields {
            VariantFields::Unit => None,
            VariantFields::Unnamed(types) => {
                if types.len() != 1 {
                    errors.push(DeriveError::FieldCount { variant: i, found: types.len() });
                }
                if types.len() > 0 {
                    Some(types[0].clone())
                } else {
                    None
                }
            },
            VariantFields::Named => {
                errors.push(DeriveError::NamedFields { variant: i });
                None
            },
        };
        let ghost variant_errors = errors@.len() > errors_before;
        let ghost seen0 = errors_seen;
        let ghost mode0 = mode;
        let ghost attrs = variant.attrs@;
        let n_attrs = variant.attrs.len();
        let ident = variant.ident;
        let mut attr_stack = into_stack(variant.attrs);
        let mut k: usize = 0;
        while k < n_attrs
            invariant
                size == all.len(),
                all == variants@,
                i < size,
                attrs == all[i as int].attrs@,
                n_attrs == attrs.len(),
                attr_stack@.reverse() == attrs.skip(k as int),
                ident == all[i as int].ident,
                field == variant_field(all[i as int]),
                k <= attrs.len(),
                graph.well_formed(),
                forall|x: int| 0 <= x < regex_ids@.len() ==> graph.has(#[trigger] regex_ids@[x]),
                forall|x: int| 0 <= x < ropes@.len() ==> graph.fits(crate::graph::NodeView::Rope(#[trigger] ropes@[x]@)),
                errors_seen == seen0 + error_attrs(attrs.take(k as int)),
                errors_seen == 0 <==> error is None,
                error matches Some(e) ==> e <= i && has_error_attr(all[e as int]),
                errors_seen > 1 ==> errors@.len() > 0,
                errors@.len() >= errors_before,
                variant_errors ==> errors@.len() > errors_before,
                variant_errors ==> bad_variant(all[i as int], size as nat),
                simple == distinct_first_bytes(all),
                simple ==> regex_ids@.len() == 0 && tokens_tracked(all, ropes@, origin, graph@, i as int, k as int),
                single == exists|o: (int, int)| #[trigger] only_definition(all, o) && regex_rope_pattern(all[o.0].attrs@[o.1]) is Some,
                single ==> only_definition(all, pos) && regex_rope_pattern(all[pos.0].attrs@[pos.1]) == Some(pat),
                pvar == all[pos.0] && pattr == all[pos.0].attrs@[pos.1] && pprio == regex_priority(all[pos.0].attrs@[pos.1]),
                single && !comes_before(pos, i as int, k as int) ==> graph@.len() == 0 && regex_ids@.len() == 0 && ropes@.len() == 0,
                single && comes_before(pos, i as int, k as int) ==> regex_added(&graph, regex_ids@, pat, pvar, pattr, pprio) && ropes@.len() == 0,
                errors@.len() > 0 ==> ((exists|j: int| 0 <= j < i && bad_variant(#[trigger] all[j], size as nat)) || bad_variant(
                    all[i as int],
                    size as nat,
                ) || errors_seen > 1 || !(simple || single)),
                (exists|j: int| 0 <= j < k && bad_attr(#[trigger] attrs[j])) ==> errors@.len() > errors_before,
                mode == (if mode0 == Mode::Binary || exists|j: int| 0 <= j < k && match #[trigger] attrs[j] {
                    Attribute::Token(d) => d.literal is Bytes,
                    Attribute::Regex(d) => d.literal is Bytes,
                    _ => false,
                } { Mode::Binary } else { Mode::Utf8 }),
            decreases attrs.len() - k,
        {
            proof {
                assert(attrs.take(k + 1).drop_last() == attrs.take(k as int));
                assert(attrs.take(k + 1).last() == attrs[k as int]);
                assert(attr_stack@.reverse().len() == n_attrs - k);
                assert(attrs.skip(k as int)[0] == attrs[k as int]);
            }
            let attr = pop_next(&mut attr_stack);
            proof {
                assert(attr_stack@.reverse() =~= attrs.skip(k + 1));
                assert(attr == attrs[k as int]);
                assert(all[i as int].attrs@[k as int] == attr);
                assert(attr_at(all, (i as int, k as int)));
            }
            match attr {
                Attribute::Error => {
                    match error {
                        Some(previous) => {
                            errors.push(DeriveError::DuplicateError { variant: i, previous });
                        },
                        None => {},
                    }
                    error = Some(i);
                    proof {
                        errors_seen = errors_seen + 1;
                        assert(all[i as int].attrs@[k as int] is Error);
                    }
                },
                Attribute::End => {
                    errors.push(DeriveError::End { variant: i, attr: k });
                },
                Attribute::Token(definition) => {
                    if let Literal::Bytes(_) = definition.literal {
                        mode = Mode::Binary;
                    }
                    let value = definition.literal.to_bytes();
                    proof {
                        assert(value@ == literal_bytes(definition.literal));
                        if simple {
                            assert(token_first(all[i as int].attrs@[k as int]) is Some);
                        }
                    }
                    if value.len() == 0 {
                        errors.push(DeriveError::EmptyToken { variant: i, attr: k });
                    } else {
                        let leaf = Leaf::token(ident.clone()).field(field.clone()).callback(callback_of(definition.callback)).priority(
                            value.len(),
                        );
                        proof {
                            if simple {
                                lemma_tracked_bounded(all, ropes@, origin, graph@, i as int, k as int);
                            }
                        }
                        if !graph.room() {
                            errors.push(DeriveError::Graph(GraphError::Exhausted));
                            return Err(errors);
                        }
                        let ghost g_before = graph@;
                        let ghost leaf_view = crate::graph::NodeView::<Leaf>::Leaf(leaf);
                        let target = graph.push(Node::Leaf(leaf));
                        let rope = Rope::new(Pattern::from_bytes(value.as_slice()), target);
                        proof {
                            assert forall|x: NodeId| #[trigger] crate::graph::NodeView::<Leaf>::Rope(rope@).points_to(x) implies graph.has(x) by {}
                            if simple {
                                assert(token_bytes(all[i as int].attrs@[k as int]) == value@);
                                assert(rope@.pattern =~= bytes_pattern(value@));
                                lemma_tracked_token(all, ropes@, origin, g_before, i as int, k as int, rope, leaf_view);
                                origin = origin.push((i as int, k as int));
                            }
                        }
                        ropes.push(rope);
                    }
                },
                Attribute::Regex(definition) => {
                    let callback = callback_of(definition.callback);
                    let (utf8, regex) = match &definition.literal {
                        Literal::Utf8(s) => (true, s.clone()),
                        Literal::Bytes(b) => {
                            mode = Mode::Binary;
                            (false, bytes_to_regex_string(b.clone()))
                        },
                    };
                    proof {
                        if single {
                            assert(attr_at(all, (i as int, k as int)) && is_definition(all[i as int].attrs@[k as int]));
                            assert(pos == (i as int, k as int));
                            assert(!comes_before(pos, i as int, k as int));
                            assert(regex@ == match definition.literal {
                                Literal::Utf8(s) => s@,
                                Literal::Bytes(b) => regex_escaped(b@),
                            });
                            assert(utf8 == definition.literal is Utf8);
                        }
                    }
                    if !graph.room() {
                        errors.push(DeriveError::Graph(GraphError::Exhausted));
                        return Err(errors);
                    }
                    let target = graph.reserve();
                    let ghost reserved = graph@;
                    match graph.regex(utf8, regex.as_str(), target.get()) {
                        Ok((len, id)) => {
                            let ghost built_graph = graph@;
                            let leaf = Leaf::token(ident.clone()).field(field.clone()).callback(callback).priority(len);
                            graph.insert(target, Node::Leaf(leaf));
                            regex_ids.push(id);
                            proof {
                                if single {
                                    assert(reserved.len() == 1);
                                    assert(built_graph[0] == reserved[0]);
                                    assert(built_graph[id.index() as int] is Some);
                                    assert(id.index() == 1);
                                    assert(graph@.len() == 2);
                                    assert(regex_ids@[0] == id);
                                    assert(graph.closed()) by {
                                        assert forall|n: int| 0 <= n < graph@.len() && (#[trigger] graph@[n]) is Some implies forall|y: NodeId|
                                            #[trigger] graph@[n]->Some_0.points_to(y) ==> graph.has(y) && graph@[y.index() as int] is Some by {
                                            assert forall|y: NodeId| #[trigger] graph@[n]->Some_0.points_to(y) implies graph.has(y)
                                                && graph@[y.index() as int] is Some by {
                                                if n == 1 {
                                                    assert(y == target.id());
                                                }
                                            }
                                        }
                                    }
                                    assert(graph@[target.id().index() as int] == Some(NodeView::<Leaf>::Leaf(leaf)));
                                    assert(comes_before(pos, i as int, k + 1));
                                }
                            }
                        },
                        Err(e) => {
                            errors.push(DeriveError::Regex { variant: i, attr: k, error: e });
                        },
                    }
                },
                Attribute::Other => {},
            }
            proof {
                if single && !(attrs[k as int] is Regex) {
                    if is_definition(all[i as int].attrs@[k as int]) {
                        assert(attr_at(all, (i as int, k as int)));
                        assert(pos == (i as int, k as int));
                    }
                    assert(pos != (i as int, k as int));
                }
                lemma_error_attrs_push(attrs.take(k as int), attrs[k as int]);
                if simple && !(attrs[k as int] is Token) {
                    lemma_tracked_skip(all, ropes@, origin, graph@, i as int, k as int);
                }
            }
            k = k + 1;
        }
        proof {
            if simple {
                lemma_tracked_next_variant(all, ropes@, origin, graph@, i as int);
            }
            if single {
                assert(attr_at(all, pos));
                assert(comes_before(pos, i as int, attrs.len() as int) == comes_before(pos, i + 1, 0));
            }
            assert(attrs.take(attrs.len() as int) == attrs);
            assert(stack@ == rest);
            assert(stack@.reverse() =~= all.skip(i + 1));
        }
        i = i + 1;
    }
    proof {
        assert(all.take(size as int) == all);
    }
    let error = match error {
        Some(e) => e,
        None => {
            errors.push(DeriveError::MissingError);
            return Err(errors);
        },
    };
    if errors.len() > 0 {
        return Err(errors);
    }
    let ghost rs = ropes@;
    let ghost g0 = graph@;
    proof {
        if simple {
            let rs = ropes@;
            assert forall|k: int| 0 <= k < rs.len() implies (#[trigger] rs[k])@.pattern.len() >= 1 && rs[k]@.miss == Miss::Fail
                && rs[k]@.pattern[0].0 <= rs[k]@.pattern[0].1 by {
                assert(rope_from(all, rs[k], origin[k], graph@));
            }
            assert forall|j: int, k: int, b: int| 0 <= j < k < rs.len() implies !(#[trigger] in_first(rs[j], b) && #[trigger] in_first(
                rs[k],
                b,
            )) by {
                assert(rope_from(all, rs[j], origin[j], graph@));
                assert(rope_from(all, rs[k], origin[k], graph@));
                assert(origin[j] != origin[k]);
                assert(attr_at(all, origin[j]) && attr_at(all, origin[k]));
            }
            assert(disjoint_ropes(rs));
            assert forall|k: int| 0 <= k < rs.len() implies graph@[(#[trigger] rs[k])@.target.index() as int] is Some by {
                assert(rope_from(all, rs[k], origin[k], graph@));
            }
            lemma_tracked_bounded(all, rs, origin, graph@, size as int, 0);
            assert(graph@.len() + rs.len() < u32::MAX);
            assert(graph.closed()) by {
                assert forall|n: int| 0 <= n < graph@.len() && (#[trigger] graph@[n]) is Some implies forall|id: NodeId| #[trigger] graph@[n]->Some_0.points_to(id)
                    ==> graph.has(id) && graph@[id.index() as int] is Some by {
                    assert(graph@[n] matches Some(NodeView::Leaf(_)));
                }
            }
        }
    }
    match join(&mut graph, &regex_ids, ropes) {
        Ok(root) => {
            proof {
                if simple {
                    lemma_tokens_root(all, rs, origin, g0, graph@, graph@[root.index() as int]->Some_0->Fork_0);
                }
                if single {
                    let rp = g0[regex_ids@[0].index() as int]->Some_0->Rope_0;
                    assert(g0[regex_ids@[0].index() as int]->Some_0.points_to(rp.target));
                    lemma_regex_root(g0, graph@, rp, graph@[root.index() as int]->Some_0->Fork_0, all[pos.0], all[pos.0].attrs@[pos.1], pprio);
                }
            }
            Ok(Built { graph, root, mode, error })
        },
        Err(e) => Err(vec![DeriveError::Graph(e)]),
    }
}

/// Where no two tokens start with the same byte, the slot the root sends
/// the first byte of a token to leads to that token's own leaf: the
/// variant's name and field, the token's callback (none only when the
/// token names none) and its length as priority.
pub proof fn law_token_leaf_is_its_own(vs: Seq<Variant>, g: Seq<Option<NodeView<Leaf>>>, id: NodeId, b: int, o: (int, int))
    requires
        distinct_first_bytes(vs),
        token_leaf(vs, g, id, b),
        attr_at(vs, o),
        token_first(vs[o.0].attrs@[o.1]) == Some(b as u8),
    ensures
        leads_to_leaf(g, id, vs[o.0], vs[o.0].attrs@[o.1]),
{
    let o2 = choose|o2: (int, int)|
        #[trigger] attr_at(vs, o2) && token_first(vs[o2.0].attrs@[o2.1]) == Some(b as u8) && leads_to_leaf(g, id, vs[o2.0], vs[o2.0].attrs@[o2.1]);
    if o2 != o {
        assert(attr_at(vs, o) && attr_at(vs, o2));
        assert(token_first(vs[o.0].attrs@[o.1]) != token_first(vs[o2.0].attrs@[o2.1]));
    }
}

/// The root joining the ropes of tokens with distinct first bytes sends
/// each byte that starts a token, and only those, to where that token
/// goes on to its leaf.
proof fn lemma_tokens_root(
    all: Seq<Variant>,
    rs: Seq<Rope>,
    origin: Seq<(int, int)>,
    g0: Seq<Option<NodeView<Leaf>>>,
    g: Seq<Option<NodeView<Leaf>>>,
    f: ForkView,
)
    requires
        distinct_first_bytes(all),
        tokens_tracked(all, rs, origin, g0, all.len() as int, 0),
        starts_ropes(g, f, rs, rs.len() as int),
        forall|k: int| 0 <= k < rs.len() ==> g[(#[trigger] rs[k])@.target.index() as int] == g0[rs[k]@.target.index() as int],
        g.len() >= g0.len(),
    ensures
        forall|b: int|
            0 <= b < 256 ==> (#[trigger] f.lut[b] is Some <==> token_covers(all, b)) && (f.lut[b] matches Some(id) ==> token_leaf(all, g, id, b)),
{
    assert forall|b: int| 0 <= b < 256 implies (#[trigger] f.lut[b] is Some <==> token_covers(all, b)) && (f.lut[b] matches Some(id) ==> token_leaf(
        all,
        g,
        id,
        b,
    )) by {
        if f.lut[b] is Some {
            let k = choose|k: int| 0 <= k < rs.len() && #[trigger] in_first(rs[k], b);
            let o = origin[k];
            let bs = token_bytes(all[o.0].attrs@[o.1]);
            assert(rope_from(all, rs[k], o, g0));
            assert(rs[k]@.pattern[0] == Range(bs[0], bs[0]));
            assert(token_first(all[o.0].attrs@[o.1]) == Some(b as u8));
            let id = f.lut[b]->Some_0;
            assert(step_to(g, rs[k]@, id));
            let t = rs[k]@.target;
            assert(g[t.index() as int] == g0[t.index() as int]);
            assert(leads_to_leaf(g, id, all[o.0], all[o.0].attrs@[o.1]));
            assert(token_covers(all, b));
        }
        if token_covers(all, b) {
            let o = choose|o: (int, int)| #[trigger] attr_at(all, o) && token_first(all[o.0].attrs@[o.1]) == Some(b as u8) && 0 <= b < 256;
            assert(comes_before(o, all.len() as int, 0));
            assert(origin.contains(o));
            let k = choose|k: int| 0 <= k < origin.len() && origin[k] == o;
            assert(rope_from(all, rs[k], origin[k], g0));
            assert(in_first(rs[k], b));
        }
    }
}

/// The root joining the one rope of a regex sends each byte of the rope's
/// first range to where the rope goes on to the regex's leaf.
proof fn lemma_regex_root(
    g0: Seq<Option<NodeView<Leaf>>>,
    g: Seq<Option<NodeView<Leaf>>>,
    rp: RopeView,
    f: ForkView,
    v: Variant,
    a: Attribute,
    priority: int,
)
    requires
        0 <= rp.target.index() < g0.len(),
        leaf_of(g0[rp.target.index() as int], v, a, priority),
        rp.miss == Miss::Fail,
        g.len() >= g0.len(),
        forall|b: int|
            0 <= b < 256 && rp.pattern[0].0 <= b <= rp.pattern[0].1 ==> (#[trigger] f.lut[b] matches Some(n) && step_to(g, rp, n)) && g[rp.target.index() as int]
                == g0[rp.target.index() as int],
    ensures
        forall|b: int|
            #![trigger f.lut[b]]
            0 <= b < 256 && rp.pattern[0].0 <= b <= rp.pattern[0].1 ==> (f.lut[b] matches Some(n) && rope_leads_to_leaf(g, n, rp.pattern, v, a, priority)),
{
    assert forall|b: int| #![trigger f.lut[b]] 0 <= b < 256 && rp.pattern[0].0 <= b <= rp.pattern[0].1 implies (f.lut[b] matches Some(n)
        && rope_leads_to_leaf(g, n, rp.pattern, v, a, priority)) by {
        assert(rest_of(rp).pattern == rp.pattern.drop_first());
    }
}

/// Whether byte `b` is in the first range of a rope.
pub open spec fn in_first(r: Rope, b: int) -> bool {
    r@.pattern[0].0 <= b <= r@.pattern[0].1
}

/// Whether each rope matches something, starts with a nonempty range and
/// fails on a miss, and no byte is in the first ranges of two of them.
pub open spec fn disjoint_ropes(rs: Seq<Rope>) -> bool {
    &&& forall|k: int| 0 <= k < rs.len() ==> (#[trigger] rs[k])@.pattern.len() >= 1 && rs[k]@.miss == Miss::Fail && rs[k]@.pattern[0].0
        <= rs[k]@.pattern[0].1
    &&& forall|j: int, k: int, b: int| 0 <= j < k < rs.len() ==> !(#[trigger] in_first(rs[j], b) && #[trigger] in_first(rs[k], b))
}

/// Whether slot `n` is where a fork branching on the first range of
/// `rope` goes: the rope's target when it has one range, else a node
/// holding the rest of the rope.
pub open spec fn step_to(g: Seq<Option<NodeView<Leaf>>>, rope: RopeView, n: NodeId) -> bool {
    if rope.pattern.len() == 1 {
        n == rope.target
    } else {
        0 <= n.index() < g.len() && g[n.index() as int] == Some(NodeView::<Leaf>::Rope(rest_of(rope)))
    }
}

/// Whether fork `f` starts the first `count` ropes of `rs`: it misses
/// nowhere, sends a byte somewhere only when the byte is in the first
/// range of one of them, and then to where that rope goes on.
pub open spec fn starts_ropes(g: Seq<Option<NodeView<Leaf>>>, f: ForkView, rs: Seq<Rope>, count: int) -> bool {
    &&& f.miss is None
    &&& f.lut.len() == 256
    &&& forall|b: int| 0 <= b < 256 && (#[trigger] f.lut[b]) is Some ==> exists|k: int| 0 <= k < count && #[trigger] in_first(rs[k], b)
    &&& forall|k: int, b: int| 0 <= k < count && 0 <= b < 256 && #[trigger] in_first(rs[k], b) ==> (f.lut[b] matches Some(n) && step_to(g, rs[k]@, n))
}

/// After folding the one rope of a regex into an empty root: the graph
/// is closed and grew by at most one slot, and the root branches on the
/// first range of the rope to where the rope goes on, misses nowhere, and
/// leads to filled slots.
pub open spec fn regex_root_state(g: &Graph<Leaf>, root: ForkView, rp: crate::graph::RopeView, old_len: nat) -> bool {
    &&& g.closed()
    &&& g@.len() <= old_len + 1
    &&& root.miss is None
    &&& root.lut.len() == 256
    &&& forall|b: int| 0 <= b < 256 ==> (#[trigger] root.lut[b] is Some <==> rp.pattern[0].0 <= b <= rp.pattern[0].1)
    &&& forall|x: NodeId| #[trigger] NodeView::<Leaf>::Fork(root).points_to(x) ==> g.has(x) && g@[x.index() as int] is Some
    &&& forall|b: int| 0 <= b < 256 && rp.pattern[0].0 <= b <= rp.pattern[0].1 ==> (#[trigger] root.lut[b] matches Some(n) && step_to(g@, rp, n))
}

/// Join the nodes of the regexes and the ropes of the tokens into a root
/// fork, fold the forks its miss leads to into it, push it, check that
/// every node leads only to filled slots, and remove the nodes the root
/// does not lead to.
fn join(graph: &mut Graph<Leaf>, regex_ids: &Vec<NodeId>, ropes: Vec<Rope>) -> (r: Result<NodeId, GraphError>)
    requires
        old(graph).well_formed(),
        forall|k: int| 0 <= k < regex_ids@.len() ==> old(graph).has(#[trigger] regex_ids@[k]),
        forall|k: int| 0 <= k < ropes@.len() ==> old(graph).fits(crate::graph::NodeView::Rope(#[trigger] ropes@[k]@)),
    ensures
        r matches Ok(root) ==> {
            &&& final(graph).well_formed()
            &&& final(graph).closed()
            &&& final(graph).has(root)
            &&& final(graph)@[root.index() as int] matches Some(NodeView::Fork(_))
            &&& forall|i: int| 0 <= i < final(graph)@.len() && (#[trigger] final(graph)@[i]) is Some ==> reachable(final(graph)@, root.index() as int, i)
        },
        final(graph)@.len() >= old(graph)@.len(),
        regex_ids@.len() == 0 && disjoint_ropes(ropes@) && old(graph)@.len() + ropes@.len() < u32::MAX && old(graph).closed() && (forall|k: int|
            0 <= k < ropes@.len() ==> old(graph)@[(#[trigger] ropes@[k])@.target.index() as int] is Some) ==> (r matches Ok(root)
            && (final(graph)@[root.index() as int] matches Some(NodeView::Fork(f)) && starts_ropes(final(graph)@, f, ropes@, ropes@.len() as int))
            && forall|k: int|
            0 <= k < ropes@.len() ==> final(graph)@[(#[trigger] ropes@[k])@.target.index() as int] == old(graph)@[ropes@[k]@.target.index() as int]),
        regex_ids@.len() == 1 && ropes@.len() == 0 && old(graph)@.len() < u32::MAX && old(graph).closed() ==> (
        old(graph)@[regex_ids@[0].index() as int] matches Some(NodeView::Rope(rp)) ==> (rp.miss == Miss::Fail ==> (r matches Ok(root)
            && final(graph)@[root.index() as int] matches Some(NodeView::Fork(f)) && f.miss is None && (forall|b: int|
            0 <= b < 256 ==> (#[trigger] f.lut[b] is Some <==> rp.pattern[0].0 <= b <= rp.pattern[0].1)) && (forall|b: int|
            0 <= b < 256 && rp.pattern[0].0 <= b <= rp.pattern[0].1 ==> (#[trigger] f.lut[b] matches Some(n) && step_to(final(graph)@, rp, n))
                && final(graph)@[rp.target.index() as int] == old(graph)@[rp.target.index() as int])))),
{
    let ghost only_ropes = regex_ids@.len() == 0 && disjoint_ropes(ropes@) && old(graph)@.len() + ropes@.len() < u32::MAX && old(graph).closed()
        && (forall|k: int| 0 <= k < ropes@.len() ==> old(graph)@[(#[trigger] ropes@[k])@.target.index() as int] is Some);
    let ghost one_regex: bool = regex_ids@.len() == 1 && ropes@.len() == 0 && old(graph)@.len() < u32::MAX && old(graph).closed() && (
    old(graph)@[regex_ids@[0].index() as int] matches Some(NodeView::Rope(rp)) && rp.miss == Miss::Fail);
    let ghost rp: crate::graph::RopeView = match old(graph)@[regex_ids@[0].index() as int] {
        Some(NodeView::Rope(x)) => x,
        _ => vstd::pervasive::arbitrary(),
    };
    let mut root = Fork::new();
    let ghost root0 = root@;
    proof {
        root.lemma_fields();
        assert forall|x: NodeId| #[trigger] crate::graph::NodeView::<Leaf>::Fork(root@).points_to(x) implies graph.has(x) by {
            let b = choose|b: int| 0 <= b < 256 && #[trigger] root@.lut[b] == Some(x);
        }
        if one_regex {
            graph.lemma_stored_fits(regex_ids@[0]);
            assert(NodeView::<Leaf>::Rope(rp).points_to(rp.target));
        }
    }
    let mut i: usize = 0;
    while i < regex_ids.len()
        invariant
            i <= regex_ids@.len(),
            graph.well_formed(),
            forall|k: int| 0 <= k < regex_ids@.len() ==> graph.has(#[trigger] regex_ids@[k]),
            forall|k: int| 0 <= k < ropes@.len() ==> graph.fits(crate::graph::NodeView::Rope(#[trigger] ropes@[k]@)),
            graph.fits(crate::graph::NodeView::Fork(root@)),
            only_ropes == (regex_ids@.len() == 0 && disjoint_ropes(ropes@) && old(graph)@.len() + ropes@.len() < u32::MAX && old(graph).closed()
                && (forall|k: int| 0 <= k < ropes@.len() ==> old(graph)@[(#[trigger] ropes@[k])@.target.index() as int] is Some)),
            only_ropes ==> graph@ == old(graph)@ && root@ == root0,
            one_regex == (regex_ids@.len() == 1 && ropes@.len() == 0 && old(graph)@.len() < u32::MAX && old(graph).closed() && (
            old(graph)@[regex_ids@[0].index() as int] matches Some(NodeView::Rope(x)) && x.miss == Miss::Fail)),
            one_regex ==> old(graph)@[regex_ids@[0].index() as int] == Some(NodeView::<Leaf>::Rope(rp)),
            one_regex && i == 0 ==> graph@ == old(graph)@ && root@ == root0,
            one_regex && i == 1 ==> regex_root_state(graph, root@, rp, old(graph)@.len()),
            one_regex ==> old(graph).has(rp.target),
            grows(graph@, old(graph)@),
            root0.lut == Seq::new(256, |b: int| None::<NodeId>),
            root0.miss is None,
        decreases regex_ids@.len() - i,
    {
        if !graph.room() {
            return Err(GraphError::Exhausted);
        }
        let ghost g_before = *graph;
        let fork = graph.fork_off(regex_ids[i]);
        let ghost fork_view = fork@;
        proof {
            if one_regex {
                assert(i == 0);
                g_before.lemma_stored_fits(regex_ids@[0]);
                assert(crate::graph::NodeView::<Leaf>::Rope(rp).sound());
                assert(rp.pattern.len() > 0);
                assert(crate::graph::forks_mergeable(root@, fork@));
            }
        }
        match root.merge(fork, graph) {
            Ok(()) => {},
            Err(e) => {
                return Err(e);
            },
        }
        proof {
            if one_regex {
                let id = regex_ids@[0];
                assert(NodeView::<Leaf>::Rope(rp).points_to(rp.target));
                assert(old(graph)@[rp.target.index() as int] is Some);
                assert(root@.lut.len() == 256);
                assert forall|b: int| 0 <= b < 256 implies #[trigger] root@.lut[b] == fork_view.lut[b] by {
                    assert(crate::graph::combined(graph, root0.lut[b], fork_view.lut[b], root@.lut[b]));
                }
                assert(crate::graph::combined(graph, root0.miss, fork_view.miss, root@.miss));
                let next: NodeId = if rp.pattern.len() == 1 {
                    rp.target
                } else {
                    choose|next: NodeId| #[trigger] crate::graph::rope::first_step(rp, next, fork_view) && graph.has(next) && graph@[next.index() as int]
                        == Some(NodeView::<Leaf>::Rope(crate::graph::rope::rest_of(rp)))
                };
                assert(crate::graph::rope::first_step(rp, next, fork_view));
                assert(graph.has(next) && graph@[next.index() as int] is Some);
                assert forall|x: NodeId| #[trigger] NodeView::<Leaf>::Fork(root@).points_to(x) implies graph.has(x) && graph@[x.index() as int] is Some by {
                    if root@.miss != Some(x) {
                        let b = choose|b: int| 0 <= b < 256 && #[trigger] root@.lut[b] == Some(x);
                        assert(fork_view.lut[b] == Some(x));
                        assert(x == next);
                    }
                }
                assert(graph.closed()) by {
                    let rest = crate::graph::rope::rest_of(rp);
                    assert forall|n: int| 0 <= n < graph@.len() && (#[trigger] graph@[n]) is Some implies forall|y: NodeId|
                        #[trigger] graph@[n]->Some_0.points_to(y) ==> graph.has(y) && graph@[y.index() as int] is Some by {
                        if n < old(graph)@.len() {
                            assert(graph@[n] == old(graph)@[n]);
                            assert forall|y: NodeId| #[trigger] graph@[n]->Some_0.points_to(y) implies graph.has(y) && graph@[y.index() as int] is Some by {
                                assert(old(graph)@[n]->Some_0.points_to(y));
                                assert(graph@[y.index() as int] == old(graph)@[y.index() as int]);
                            }
                        } else {
                            assert(rp.pattern.len() > 1);
                            assert(graph@ == old(graph)@.push(Some(NodeView::<Leaf>::Rope(rest))));
                            assert(graph@[n] == Some(NodeView::<Leaf>::Rope(rest)));
                            assert forall|y: NodeId| #[trigger] graph@[n]->Some_0.points_to(y) implies graph.has(y) && graph@[y.index() as int] is Some by {
                                assert(NodeView::<Leaf>::Rope(rest).points_to(y));
                                assert(y == rp.target);
                                assert(graph@[y.index() as int] == old(graph)@[y.index() as int]);
                            }
                        }
                    }
                }
            }
        }
        i = i + 1;
    }
    proof {
        if only_ropes {
            assert(starts_ropes(graph@, root@, ropes@, 0));
        }
    }
    let mut j: usize = 0;
    while j < ropes.len()
        invariant
            j <= ropes@.len(),
            graph.well_formed(),
            forall|k: int| 0 <= k < ropes@.len() ==> graph.fits(crate::graph::NodeView::Rope(#[trigger] ropes@[k]@)),
            graph.fits(crate::graph::NodeView::Fork(root@)),
            only_ropes == (regex_ids@.len() == 0 && disjoint_ropes(ropes@) && old(graph)@.len() + ropes@.len() < u32::MAX && old(graph).closed()
                && (forall|k: int| 0 <= k < ropes@.len() ==> old(graph)@[(#[trigger] ropes@[k])@.target.index() as int] is Some)),
            only_ropes ==> graph@.len() <= old(graph)@.len() + j && starts_ropes(graph@, root@, ropes@, j as int),
            only_ropes ==> forall|n: int|
                old(graph)@.len() <= n < graph@.len() ==> exists|k: int| 0 <= k < j && #[trigger] graph@[n] == Some(NodeView::<Leaf>::Rope(rest_of(ropes@[k]@))),
            one_regex ==> ropes@.len() == 0 && regex_root_state(graph, root@, rp, old(graph)@.len()),
            one_regex ==> old(graph).has(rp.target),
            grows(graph@, old(graph)@),
            one_regex == (regex_ids@.len() == 1 && ropes@.len() == 0 && old(graph)@.len() < u32::MAX && old(graph).closed() && (
            old(graph)@[regex_ids@[0].index() as int] matches Some(NodeView::Rope(x)) && x.miss == Miss::Fail)),
            one_regex ==> old(graph)@[regex_ids@[0].index() as int] == Some(NodeView::<Leaf>::Rope(rp)),
        decreases ropes@.len() - j,
    {
        if !graph.room() {
            return Err(GraphError::Exhausted);
        }
        let rope = ropes[j].copy();
        let ghost root_before = root@;
        let ghost g_before = graph@;
        let fork = rope.into_fork(graph);
        let ghost next: NodeId = if rope@.pattern.len() == 1 {
            rope@.target
        } else {
            choose|next: NodeId| #[trigger] crate::graph::rope::first_step(rope@, next, fork@) && graph.has(next) && graph@[next.index() as int]
                == Some(NodeView::<Leaf>::Rope(rest_of(rope@)))
        };
        proof {
            if only_ropes {
                let rs = ropes@;
                assert(rs[j as int]@.pattern.len() >= 1 && rs[j as int]@.miss == Miss::Fail);
                assert(crate::graph::rope::first_step(rope@, next, fork@));
                assert(step_to(graph@, rope@, next));
                assert(fork@.miss is None);
                assert forall|b: int| 0 <= b < 256 implies crate::graph::mergeable(#[trigger] root_before.lut[b], fork@.lut[b]) by {
                    if root_before.lut[b] is Some && fork@.lut[b] is Some {
                        let k = choose|k: int| 0 <= k < j && #[trigger] in_first(rs[k], b);
                        assert(in_first(rs[j as int], b));
                    }
                }
                assert(crate::graph::forks_mergeable(root_before, fork@));
            }
        }
        match root.merge(fork, graph) {
            Ok(()) => {},
            Err(e) => {
                return Err(e);
            },
        }
        proof {
            if only_ropes {
                let rs = ropes@;
                assert(root@.lut.len() == 256);
                assert forall|b: int| 0 <= b < 256 && (#[trigger] root@.lut[b]) is Some implies exists|k: int|
                    0 <= k < j + 1 && #[trigger] in_first(rs[k], b) by {
                    assert(crate::graph::combined(graph, root_before.lut[b], fork@.lut[b], root@.lut[b]));
                    if root_before.lut[b] is Some {
                        let k = choose|k: int| 0 <= k < j && #[trigger] in_first(rs[k], b);
                        assert(0 <= k < j + 1 && in_first(rs[k], b));
                    } else {
                        assert(in_first(rs[j as int], b));
                    }
                }
                assert forall|k: int, b: int| 0 <= k < j + 1 && 0 <= b < 256 && #[trigger] in_first(rs[k], b) implies (root@.lut[b] matches Some(
                    n,
                ) && step_to(graph@, rs[k]@, n)) by {
                    assert(crate::graph::combined(graph, root_before.lut[b], fork@.lut[b], root@.lut[b]));
                    if k < j {
                        assert(!in_first(rs[j as int], b));
                        assert(fork@.lut[b] is None);
                        let n = root_before.lut[b]->Some_0;
                        assert(step_to(g_before, rs[k]@, n));
                    } else {
                        assert(fork@.lut[b] == Some(next));
                        if root_before.lut[b] is Some {
                            let k2 = choose|k2: int| 0 <= k2 < j && #[trigger] in_first(rs[k2], b);
                            assert(false);
                        }
                    }
                }
                assert(starts_ropes(graph@, root@, rs, j + 1));
                assert forall|n: int| old(graph)@.len() <= n < graph@.len() implies exists|k: int|
                    0 <= k < j + 1 && #[trigger] graph@[n] == Some(NodeView::<Leaf>::Rope(rest_of(rs[k]@))) by {
                    if n < g_before.len() {
                        let k = choose|k: int| 0 <= k < j && #[trigger] g_before[n] == Some(NodeView::<Leaf>::Rope(rest_of(rs[k]@)));
                        assert(graph@[n] == g_before[n]);
                    } else {
                        assert(graph@[n] == Some(NodeView::<Leaf>::Rope(rest_of(rs[j as int]@))));
                    }
                }
            }
        }
        j = j + 1;
    }
    let ghost g_joined = graph@;
    let ghost root_joined = root@;
    proof {
        if only_ropes {
            assert forall|n: int| old(graph)@.len() <= n < g_joined.len() implies exists|k: int|
                0 <= k < ropes@.len() && #[trigger] g_joined[n] == Some(NodeView::<Leaf>::Rope(rest_of(ropes@[k]@))) by {
                let k = choose|k: int| 0 <= k < j && #[trigger] graph@[n] == Some(NodeView::<Leaf>::Rope(rest_of(ropes@[k]@)));
            }
        }
    }
    // Fold in the forks the root's miss leads to.
    let mut seen: Vec<NodeId> = Vec::new();
    loop
        invariant
            graph.well_formed(),
            graph.fits(crate::graph::NodeView::Fork(root@)),
            seen@.no_duplicates(),
            root0.miss is None,
            forall|k: int| 0 <= k < seen@.len() ==> graph.has(#[trigger] seen@[k]),
            only_ropes == (regex_ids@.len() == 0 && disjoint_ropes(ropes@) && old(graph)@.len() + ropes@.len() < u32::MAX && old(graph).closed()
                && (forall|k: int| 0 <= k < ropes@.len() ==> old(graph)@[(#[trigger] ropes@[k])@.target.index() as int] is Some)),
            only_ropes ==> graph@ == g_joined && root@ == root_joined && root@.miss is None,
            one_regex ==> regex_root_state(graph, root@, rp, old(graph)@.len()) && old(graph)@.len() < u32::MAX,
            one_regex ==> old(graph).has(rp.target),
            grows(graph@, old(graph)@),
            one_regex == (regex_ids@.len() == 1 && ropes@.len() == 0 && old(graph)@.len() < u32::MAX && old(graph).closed() && (
            old(graph)@[regex_ids@[0].index() as int] matches Some(NodeView::Rope(x)) && x.miss == Miss::Fail)),
            one_regex ==> old(graph)@[regex_ids@[0].index() as int] == Some(NodeView::<Leaf>::Rope(rp)),
        decreases u32::MAX + 2 - seen@.len(),
    {
        proof {
            graph.lemma_len_bound();
            lemma_distinct_ids_bounded(seen@, graph@.len());
            root.lemma_fields();
        }
        let id = match root.miss {
            Some(id) => id,
            None => break,
        };
        proof {
            assert(crate::graph::NodeView::<Leaf>::Fork(root@).points_to(id));
        }
        if contains_id(&seen, id) {
            break;
        }
        let ghost before = seen@;
        seen.push(id);
        proof {
            assert forall|a: int, b: int| 0 <= a < b < seen@.len() implies seen@[a] != seen@[b] by {
                if b == seen@.len() - 1 {
                    assert(before.contains(seen@[a]) || a == b);
                }
            }
        }
        let ghost with_miss = root@;
        root.miss = None;
        proof {
            root.lemma_fields();
            assert forall|x: NodeId| #[trigger] crate::graph::NodeView::<Leaf>::Fork(root@).points_to(x) implies graph.has(x) by {
                let b = choose|b: int| 0 <= b < 256 && #[trigger] root@.lut[b] == Some(x);
                assert(crate::graph::NodeView::<Leaf>::Fork(with_miss).points_to(x));
            }
        }
        if !graph.room() {
            return Err(GraphError::Exhausted);
        }
        let fork = graph.fork_off(id);
        if fork.is_empty() {
            break;
        }
        match root.merge(fork, graph) {
            Ok(()) => {},
            Err(e) => {
                return Err(e);
            },
        }
    }
    if !graph.room() {
        return Err(GraphError::Exhausted);
    }
    let ghost root_view = root@;
    let ghost g_pre = graph@;
    let root_id = graph.push(Node::Fork(root));
    proof {
        if only_ropes {
            let rs = ropes@;
            root.lemma_fields();
            assert forall|i: int| 0 <= i < graph@.len() && (#[trigger] graph@[i]) is Some implies forall|id: NodeId| #[trigger] graph@[i]->Some_0.points_to(id)
                ==> graph.has(id) && graph@[id.index() as int] is Some by {
                if i < old(graph)@.len() {
                    assert(graph@[i] == old(graph)@[i]);
                    assert forall|id: NodeId| #[trigger] graph@[i]->Some_0.points_to(id) implies graph.has(id) && graph@[id.index() as int] is Some by {
                        assert(old(graph)@[i]->Some_0.points_to(id));
                        assert(graph@[id.index() as int] == old(graph)@[id.index() as int]);
                    }
                } else if i < g_pre.len() {
                    let k = choose|k: int| 0 <= k < rs.len() && #[trigger] g_pre[i] == Some(NodeView::<Leaf>::Rope(rest_of(rs[k]@)));
                    assert(graph@[i] == g_pre[i]);
                    assert forall|id: NodeId| #[trigger] graph@[i]->Some_0.points_to(id) implies graph.has(id) && graph@[id.index() as int] is Some by {
                        let t = rs[k]@.target;
                        assert(NodeView::<Leaf>::Rope(rest_of(rs[k]@)).points_to(id));
                        assert(id == t);
                        assert(old(graph).fits(crate::graph::NodeView::Rope(rs[k]@)));
                        assert(crate::graph::NodeView::<Leaf>::Rope(rs[k]@).points_to(t));
                        assert(graph@[t.index() as int] == old(graph)@[t.index() as int]);
                    }
                } else {
                    assert(graph@[i] == Some(NodeView::<Leaf>::Fork(root_view)));
                    assert forall|id: NodeId| #[trigger] NodeView::<Leaf>::Fork(root_view).points_to(id) implies graph.has(id) && graph@[id.index() as int] is Some by {
                        let b = choose|b: int| 0 <= b < 256 && #[trigger] root_view.lut[b] == Some(id);
                        let k = choose|k: int| 0 <= k < rs.len() && #[trigger] in_first(rs[k], b);
                        assert(step_to(g_pre, rs[k]@, id));
                        if rs[k]@.pattern.len() == 1 {
                            assert(old(graph).fits(crate::graph::NodeView::Rope(rs[k]@)));
                            assert(crate::graph::NodeView::<Leaf>::Rope(rs[k]@).points_to(id));
                            assert(graph@[id.index() as int] == old(graph)@[id.index() as int]);
                        } else {
                            assert(graph@[id.index() as int] == g_pre[id.index() as int]);
                        }
                    }
                }
            }
        }
    }
    if !graph.is_closed() {
        return Err(GraphError::Unfilled(root_id, root_id));
    }
    let ghost before_shake = graph@;
    proof {
        crate::graph::lemma_closed_filled(graph, root_id.index() as int);
    }
    graph.shake(root_id);
    proof {
        assert forall|i: int| 0 <= i < graph@.len() && (#[trigger] graph@[i]) is Some implies reachable(graph@, root_id.index() as int, i) by {
            lemma_shaken_reachable(before_shake, root_id.index() as int, i);
        }
        if one_regex {
            let t = rp.target;
            let r = root_id.index() as int;
            assert(before_shake[r] == Some(NodeView::<Leaf>::Fork(root_view)));
            assert forall|b: int| #![trigger root_view.lut[b]] 0 <= b < 256 && rp.pattern[0].0 <= b <= rp.pattern[0].1 implies (root_view.lut[b] matches Some(
                n,
            ) && step_to(graph@, rp, n)) && graph@[t.index() as int] == old(graph)@[t.index() as int] by {
                let n = root_view.lut[b]->Some_0;
                assert(step_to(g_pre, rp, n));
                assert(NodeView::<Leaf>::Fork(root_view).points_to(n));
                assert(before_shake[r]->Some_0.points_to(n));
                assert(reaches(before_shake, n.index() as int, n.index() as int, 0));
                assert(reaches(before_shake, r, n.index() as int, 1));
                assert(reachable(before_shake, r, n.index() as int));
                if rp.pattern.len() > 1 {
                    assert(before_shake[n.index() as int] == g_pre[n.index() as int]);
                    assert(NodeView::<Leaf>::Rope(rest_of(rp)).points_to(t));
                    assert(before_shake[n.index() as int]->Some_0.points_to(t));
                    assert(reaches(before_shake, t.index() as int, t.index() as int, 0));
                    assert(reaches(before_shake, n.index() as int, t.index() as int, 1));
                    assert(reaches(before_shake, r, t.index() as int, 2));
                    assert(reachable(before_shake, r, t.index() as int));
                }
            }
        }
        if only_ropes {
            let rs = ropes@;
            let r = root_id.index() as int;
            assert(before_shake[r] == Some(NodeView::<Leaf>::Fork(root_view)));
            assert forall|k: int, b: int| 0 <= k < rs.len() && 0 <= b < 256 && #[trigger] in_first(rs[k], b) implies (root_view.lut[b] matches Some(
                n,
            ) && step_to(graph@, rs[k]@, n)) && graph@[rs[k]@.target.index() as int] == old(graph)@[rs[k]@.target.index() as int] by {
                let n = root_view.lut[b]->Some_0;
                let t = rs[k]@.target;
                assert(step_to(g_pre, rs[k]@, n));
                assert(old(graph).fits(crate::graph::NodeView::Rope(rs[k]@)));
                assert(crate::graph::NodeView::<Leaf>::Rope(rs[k]@).points_to(t));
                assert(NodeView::<Leaf>::Fork(root_view).points_to(n));
                assert(before_shake[r]->Some_0.points_to(n));
                assert(reaches(before_shake, n.index() as int, n.index() as int, 0));
                assert(reaches(before_shake, r, n.index() as int, 1));
                assert(reachable(before_shake, r, n.index() as int));
                if rs[k]@.pattern.len() > 1 {
                    assert(before_shake[n.index() as int] == g_pre[n.index() as int]);
                    assert(NodeView::<Leaf>::Rope(rest_of(rs[k]@)).points_to(t));
                    assert(before_shake[n.index() as int]->Some_0.points_to(t));
                    assert(reaches(before_shake, t.index() as int, t.index() as int, 0));
                    assert(reaches(before_shake, n.index() as int, t.index() as int, 1));
                    assert(reaches(before_shake, r, t.index() as int, 2));
                    assert(reachable(before_shake, r, t.index() as int));
                }
            }
            assert forall|k: int| 0 <= k < rs.len() implies graph@[(#[trigger] rs[k])@.target.index() as int] == old(graph)@[rs[k]@.target.index() as int] by {
                let c = rs[k]@.pattern[0].0 as int;
                assert(in_first(rs[k], c));
            }
            assert(starts_ropes(graph@, root_view, rs, rs.len() as int));
        }
    }
    Ok(root_id)
}

} // verus!
