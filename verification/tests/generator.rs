use logos::generator::context::{Context as ReadContext, MissTo, Read};
use logos::generator::{analyze, Context, Meta};
use logos::graph::{Fork, Graph, Node, NodeId, Range};
use logos::leaf::Leaf;

#[test]
fn context_counts_bytes() {
    let ctx = Context::new(4);
    assert_eq!(ctx, Context { available: 4, unbumped: 0 });
    let ctx = ctx.advance(3);
    assert_eq!(ctx, Context { available: 1, unbumped: 3 });
    let ctx = ctx.push(2);
    assert_eq!(ctx, Context { available: 1, unbumped: 5 });
    assert_eq!(ctx.bump(), Some(5));
    assert_eq!(Context::unbumped(0).bump(), None);
    assert_eq!(Context::default(), Context::new(0));
}

#[test]
fn read_context_suffix_and_reads() {
    let mut ctx = ReadContext::default();
    assert!(!ctx.has_fallback());
    assert_eq!(ctx.read(0), Read::Byte);
    assert_eq!(ctx.read(4), Read::Array(4));
    ctx = ctx.advance(2);
    assert_eq!(ctx.read(0), Read::ByteAt(2));
    assert_eq!(ctx.read(3), Read::ArrayAt(2, 3));

    let mut name = String::from("goto");
    ctx.write_suffix(&mut name);
    assert_eq!(name, "goto_at2");

    assert_eq!(ctx.switch(Some(NodeId::new(12))), Some(2));
    assert!(ctx.has_fallback());
    let mut name = String::new();
    ctx.write_suffix(&mut name);
    assert_eq!(name, "_ctx12_x");
    assert_eq!(ctx.bump(), None);
}

#[test]
fn read_context_misses() {
    let ctx = ReadContext::default();
    assert_eq!(ctx.miss(None), MissTo::ErrorToken);
    assert_eq!(ctx.miss(Some(NodeId::new(3))), MissTo::Goto(NodeId::new(3), ctx));
    let mut bumped = ctx.advance(1);
    bumped.switch(Some(NodeId::new(7)));
    assert_eq!(bumped.miss(None), MissTo::Goto(NodeId::new(7), bumped.backtrack()));
    assert_eq!(bumped.backtrack().miss(None), MissTo::Error);
}

#[test]
fn meta_counts_references_and_loops() {
    let mut graph: Graph<Leaf> = Graph::new();
    let leaf = graph.push(Node::Leaf(Leaf::token("A".to_string())));
    let id = graph.reserve();
    let fork = Fork::new().branch(Range(b'a', b'z'), id.get()).branch(Range(b'0', b'0'), leaf).miss(Some(leaf));
    let root = graph.insert(id, Node::Fork(fork));

    let meta = analyze(&graph, root);
    let root_meta = meta[root.get()].as_ref().unwrap();
    // Reached from the start and from its own branch.
    assert_eq!(root_meta.refcount, 2);
    assert_eq!(root_meta.loop_entry_from, vec![root]);
    let leaf_meta = meta[leaf.get()].as_ref().unwrap();
    // Reached from the `0` branch and from the miss.
    assert_eq!(leaf_meta.refcount, 2);
    assert!(leaf_meta.loop_entry_from.is_empty());
    assert_eq!(meta.len(), 2);

    let one = Meta::one();
    assert_eq!(one.refcount, 1);
}
