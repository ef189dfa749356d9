use logos::error::{Error, Unsupported};
use logos::graph::fork::ForkIter;
use logos::graph::rope::Pattern;
use logos::graph::{Fork, Graph, GraphError, Miss, Node, NodeId, Range, Rope};
use logos::leaf::Leaf;

fn leaf(name: &str) -> Node<Leaf> {
    Node::Leaf(Leaf::token(name.to_string()))
}

fn rope_of(bytes: &[u8], target: NodeId) -> Rope {
    Rope::new(Pattern::from_bytes(bytes), target)
}

fn byte(b: u8) -> Range {
    Range(b, b)
}

fn collect_range(mut range: Range) -> Vec<u8> {
    let mut out = Vec::new();
    while out.len() < 1000 {
        match range.next() {
            Some(b) => out.push(b),
            None => break,
        }
    }
    out
}

#[test]
fn create_a_loop() {
    let mut graph = Graph::new();

    let token = graph.push(leaf("IDENT"));
    let id = graph.reserve();
    let fork = Fork::new().branch(Range(b'a', b'z'), id.get()).miss(Some(token));
    let root = graph.insert(id, Node::Fork(fork));

    assert_eq!(graph.get(token), Some(&leaf("IDENT")));
    assert_eq!(
        graph.get(root),
        Some(&Node::Fork(Fork::new().branch(Range(b'a', b'z'), root).miss(Some(token)))),
    );
}

#[test]
fn fork_off() {
    let mut graph = Graph::new();

    let leaf_id = graph.push(leaf("LEAF"));
    let rope_id = graph.push(Node::Rope(rope_of(b"rope", leaf_id)));
    let fork_id = graph.push(Node::Fork(Fork::new().branch(byte(b'!'), leaf_id)));

    assert_eq!(graph.fork_off(leaf_id), Fork::new().miss(Some(leaf_id)));
    let forked = graph.fork_off(rope_id);
    assert_eq!(forked, Fork::new().branch(byte(b'r'), NodeId::new(graph.nodes().len() - 1)));
    assert_eq!(graph.fork_off(fork_id), Fork::new().branch(byte(b'!'), leaf_id));
}

#[test]
fn fork_iter() {
    let mut buf = [None; 256];

    for b in b'4'..=b'7' {
        buf[b as usize] = Some(NodeId::new(1));
    }
    for b in b'a'..=b'd' {
        buf[b as usize] = Some(NodeId::new(2));
    }

    let mut iter = ForkIter { offset: 0, lut: &buf };
    let mut collected = Vec::new();
    while let Some(branch) = iter.next() {
        collected.push(branch);
    }

    assert_eq!(
        &[(Range(b'4', b'7'), NodeId::new(1)), (Range(b'a', b'd'), NodeId::new(2))],
        &*collected,
    );
}

#[test]
fn merge_no_conflict() {
    let mut graph = Graph::new();

    let leaf1 = graph.push(leaf("FOO"));
    let leaf2 = graph.push(leaf("BAR"));

    let mut fork = Fork::new().branch(byte(b'1'), leaf1);

    fork.merge(Fork::new().branch(byte(b'2'), leaf2), &mut graph).unwrap();

    assert_eq!(fork, Fork::new().branch(byte(b'1'), leaf1).branch(byte(b'2'), leaf2));
}

#[test]
fn merge_miss_right() {
    let mut graph = Graph::new();

    let leaf1 = graph.push(leaf("FOO"));
    let leaf2 = graph.push(leaf("BAR"));

    let mut fork = Fork::new().branch(byte(b'1'), leaf1);

    fork.merge(Fork::new().miss(Some(leaf2)), &mut graph).unwrap();

    assert_eq!(fork, Fork::new().branch(byte(b'1'), leaf1).miss(Some(leaf2)));
}

#[test]
fn merge_miss_left() {
    let mut graph = Graph::new();

    let leaf1 = graph.push(leaf("FOO"));
    let leaf2 = graph.push(leaf("BAR"));

    let mut fork = Fork::new().miss(Some(leaf1));

    fork.merge(Fork::new().branch(byte(b'2'), leaf2), &mut graph).unwrap();

    assert_eq!(fork, Fork::new().branch(byte(b'2'), leaf2).miss(Some(leaf1)));
}

#[test]
fn into_fork() {
    let mut graph = Graph::new();

    let token = graph.push(leaf("FOOBAR"));
    let r = rope_of(b"foobar", token);

    let fork = r.into_fork(&mut graph);

    let rest = NodeId::new(1);
    assert_eq!(token, NodeId::new(0));
    assert_eq!(fork, Fork::new().branch(byte(b'f'), rest));
    assert_eq!(graph.get(rest), Some(&Node::Rope(rope_of(b"oobar", token))));
}

#[test]
fn into_fork_one_byte() {
    let mut graph = Graph::new();

    let token = graph.push(leaf("FOOBAR"));
    let r = rope_of(b"!", token);

    let fork = r.into_fork(&mut graph);

    assert_eq!(token, NodeId::new(0));
    assert_eq!(fork, Fork::new().branch(byte(b'!'), NodeId::new(0)));
}

#[test]
fn into_fork_miss_any() {
    let mut graph = Graph::new();

    let token = graph.push(leaf("LIFE"));
    let other = graph.push(leaf("OTHER"));
    let r = rope_of(b"42", token).miss(Miss::Any(other));

    let fork = r.into_fork(&mut graph);

    let rest = NodeId::new(2);
    assert_eq!(fork, Fork::new().branch(byte(b'4'), rest).miss(Some(other)));
    assert_eq!(graph.get(rest), Some(&Node::Rope(rope_of(b"2", token).miss(Miss::First(other)))));
}

#[test]
fn into_fork_miss_first() {
    let mut graph = Graph::new();

    let token = graph.push(leaf("LIFE"));
    let other = graph.push(leaf("OTHER"));
    let r = rope_of(b"42", token).miss(Miss::First(other));

    let fork = r.into_fork(&mut graph);

    let rest = NodeId::new(2);
    assert_eq!(fork, Fork::new().branch(byte(b'4'), rest).miss(Some(other)));
    assert_eq!(graph.get(rest), Some(&Node::Rope(rope_of(b"2", token))));
}

#[test]
fn range_iter_one() {
    let b = Range::from_byte(b'!');
    assert_eq!(b"!", &collect_range(b)[..]);
}

#[test]
fn range_iter_few() {
    let b = Range(b'a', b'd');
    assert_eq!(b"abcd", &collect_range(b)[..]);
}

#[test]
fn range_iter_bunds() {
    let b = Range(0xFA, 0xFF);
    assert_eq!(b"\xFA\xFB\xFC\xFD\xFE\xFF", &collect_range(b)[..]);
}

#[test]
fn rope() {
    let mut graph = Graph::new();

    let leaf_id = graph.push(leaf("LEAF"));
    let (len, parsed) = graph.regex(true, "foobar", leaf_id).unwrap();

    assert_eq!(len, 12);
    assert_eq!(graph.get(parsed), Some(&Node::Rope(rope_of(b"foobar", leaf_id))));
}

#[test]
fn alternation() {
    let mut graph = Graph::new();

    let leaf_id = graph.push(leaf("LEAF"));
    let (len, parsed) = graph.regex(true, "a|b", leaf_id).unwrap();

    assert_eq!(len, 2);
    assert_eq!(
        graph.get(parsed),
        Some(&Node::Fork(Fork::new().branch(byte(b'a'), leaf_id).branch(byte(b'b'), leaf_id))),
    );
}

#[test]
fn repeat() {
    let mut graph = Graph::new();

    let leaf_id = graph.push(leaf("LEAF"));
    let (len, parsed) = graph.regex(true, "[a-z]*", leaf_id).unwrap();

    assert_eq!(len, 0);
    assert_eq!(
        graph.get(parsed),
        Some(&Node::Fork(Fork::new().branch(Range(b'a', b'z'), parsed).miss(Some(leaf_id)))),
    );
}

#[test]
fn maybe() {
    let mut graph = Graph::new();

    let leaf_id = graph.push(leaf("LEAF"));
    let (len, parsed) = graph.regex(true, "[a-z]?", leaf_id).unwrap();

    assert_eq!(len, 0);
    assert_eq!(
        graph.get(parsed),
        Some(&Node::Fork(Fork::new().branch(Range(b'a', b'z'), leaf_id).miss(Some(leaf_id)))),
    );
}

#[test]
fn priorities() {
    let mut graph = Graph::new();

    let leaf_id = graph.push(leaf("LEAF"));

    let regexes = [
        ("[a-z]+", 1),
        ("a|b", 2),
        ("a|[b-z]", 1),
        ("(foo)+", 6),
        ("foobar", 12),
        ("(fooz|bar)+qux", 12),
    ];

    for (regex, expected) in regexes.iter() {
        let (len, _) = graph.regex(true, regex, leaf_id).unwrap();
        assert_eq!(len, *expected);
    }
}

#[test]
fn regex_syntax_error_keeps_the_graph() {
    let mut graph = Graph::new();

    let leaf_id = graph.push(leaf("LEAF"));
    let before = graph.nodes().len();
    match graph.regex(true, "(", leaf_id) {
        Err(Error::Syntax(message)) => assert!(!message.is_empty()),
        other => panic!("unexpected {:?}", other),
    }
    assert_eq!(graph.nodes().len(), before);
}

#[test]
fn regex_unsupported_features() {
    let mut graph = Graph::new();

    let leaf_id = graph.push(leaf("LEAF"));
    let cases = [
        ("a*?", Unsupported::NonGreedy),
        ("a{2}", Unsupported::RepetitionRange),
        ("\\bfoo", Unsupported::WordBoundary),
        ("^foo", Unsupported::Anchor),
    ];
    for (regex, expected) in cases.iter() {
        match graph.regex(true, regex, leaf_id) {
            Err(Error::Unsupported(found)) => assert_eq!(found, *expected),
            other => panic!("unexpected {:?} for {}", other, regex),
        }
    }
    assert_eq!(Unsupported::NonGreedy.message(), "#[regex]: non-greedy parsing is currently unsupported.");
}

#[test]
fn regex_unicode_priority() {
    let mut graph = Graph::new();

    let leaf_id = graph.push(leaf("LEAF"));
    // 'é' is two bytes in UTF-8.
    let (len, parsed) = graph.regex(true, "é", leaf_id).unwrap();
    assert_eq!(len, 4);
    assert_eq!(graph.get(parsed), Some(&Node::Rope(rope_of("é".as_bytes(), leaf_id))));
    // A class past ASCII counts its shortest UTF-8 sequence.
    let (len, _) = graph.regex(true, "[é-ê]", leaf_id).unwrap();
    assert_eq!(len, 3);
    // Bytes mode.
    let (len, _) = graph.regex(false, "(?-u)\\xFF", leaf_id).unwrap();
    assert_eq!(len, 2);
}

#[test]
fn regex_empty_loop_is_refused() {
    let mut graph = Graph::new();

    let leaf_id = graph.push(leaf("LEAF"));
    match graph.regex(true, "()*", leaf_id) {
        Err(Error::Graph(GraphError::Unfilled(a, b))) => assert_eq!(a, b),
        other => panic!("unexpected {:?}", other),
    }
}

#[test]
fn merging_leaves_picks_the_same_winner_either_way() {
    let mut graph: Graph<Leaf> = Graph::new();
    let low = graph.push(Node::Leaf(Leaf::token("Low".to_string()).priority(1)));
    let high = graph.push(Node::Leaf(Leaf::token("High".to_string()).priority(2)));
    let same = graph.push(Node::Leaf(Leaf::token("Same".to_string()).priority(2)));
    assert_eq!(graph.merge(low, high).ok(), Some(high));
    assert_eq!(graph.merge(high, low).ok(), Some(high));
    assert!(matches!(graph.merge(high, same), Err(GraphError::Ambiguous(_))));
    assert!(matches!(graph.merge(same, high), Err(GraphError::Ambiguous(_))));
}

#[test]
fn inserted_node_reads_back() {
    let mut graph: Graph<Leaf> = Graph::new();
    let first = graph.push(leaf("First"));
    let slot = graph.reserve();
    let id = graph.insert(slot, leaf("Second"));
    assert_eq!(graph.get(id), Some(&leaf("Second")));
    assert_eq!(graph.get(first), Some(&leaf("First")));
}

#[test]
fn shaking_keeps_what_the_root_leads_to() {
    let mut graph = Graph::new();
    let kept = graph.push(leaf("KEPT"));
    let dropped = graph.push(leaf("DROPPED"));
    let root = graph.push(Node::Fork(Fork::new().branch(Range(b'a', b'z'), kept)));
    graph.shake(root);
    assert_eq!(graph.get(kept), Some(&leaf("KEPT")));
    assert_eq!(graph.get(dropped), None);
    assert!(graph.get(root).is_some());
    let before: Vec<bool> = graph.nodes().iter().map(|n| n.is_some()).collect();
    graph.shake(root);
    let after: Vec<bool> = graph.nodes().iter().map(|n| n.is_some()).collect();
    assert_eq!(before, after);
}

#[test]
fn pushing_an_identical_fork_gives_its_id() {
    let mut graph = Graph::new();
    let token = graph.push(leaf("TOKEN"));
    let first = graph.push(Node::Fork(Fork::new().branch(Range(b'a', b'c'), token)));
    let again = graph.push(Node::Fork(Fork::new().branch(Range(b'a', b'c'), token)));
    let other = graph.push(Node::Fork(Fork::new().branch(Range(b'a', b'd'), token)));
    assert_eq!(first, again);
    assert!(other != first);
    let twin = graph.push(leaf("TOKEN"));
    assert!(twin != token);
}

#[test]
fn leaf_stack_size() {
    const WORD: usize = std::mem::size_of::<usize>();
    const NODE: usize = std::mem::size_of::<Node<()>>();

    assert!(NODE <= 6 * WORD, "Size of Node<()> is {} bytes!", NODE);
}

#[test]
fn concat_folds_single_ranges_into_one_rope() {
    let mut graph = Graph::new();

    let leaf_id = graph.push(leaf("LEAF"));
    let (_, parsed) = graph.regex(true, "a[x-z]c", leaf_id).unwrap();

    let pattern = Pattern(vec![byte(b'a'), Range(b'x', b'z'), byte(b'c')]);
    assert_eq!(graph.get(parsed), Some(&Node::Rope(Rope::new(pattern, leaf_id))));
}

#[test]
fn fork_loops_on_itself_only_when_every_branch_returns() {
    let this = NodeId::new(3);
    let other = NodeId::new(4);

    assert!(Fork::new().branch(Range(b'a', b'z'), this).loops_on(this));
    assert!(!Fork::new().loops_on(this));
    assert!(!Fork::new().branch(Range(b'a', b'z'), this).branch(byte(b'0'), other).loops_on(this));
}

#[test]
fn merging_leaves_adds_no_node() {
    let mut graph: Graph<Leaf> = Graph::new();
    let low = graph.push(Node::Leaf(Leaf::token("Low".to_string()).priority(1)));
    let high = graph.push(Node::Leaf(Leaf::token("High".to_string()).priority(2)));
    let same = graph.push(Node::Leaf(Leaf::token("Same".to_string()).priority(2)));
    let n = graph.nodes().len();
    assert_eq!(graph.merge(low, high).ok(), Some(high));
    assert_eq!(graph.nodes().len(), n);
    assert!(graph.merge(high, same).is_err());
    assert_eq!(graph.nodes().len(), n);
    assert_eq!(graph.merge(low, low).ok(), Some(low));
    assert_eq!(graph.nodes().len(), n);
}

#[test]
fn merging_a_pair_again_gives_the_remembered_node() {
    let mut graph: Graph<Leaf> = Graph::new();
    let foo = graph.push(Node::Leaf(Leaf::token("Foo".to_string()).priority(1)));
    let bar = graph.push(Node::Leaf(Leaf::token("Bar".to_string()).priority(1)));
    let a = graph.push(Node::Fork(Fork::new().branch(byte(b'a'), foo)));
    let b = graph.push(Node::Fork(Fork::new().branch(byte(b'b'), bar)));

    let merged = graph.merge(a, b).unwrap();
    let n = graph.nodes().len();
    assert_eq!(
        graph.get(merged),
        Some(&Node::Fork(Fork::new().branch(byte(b'a'), foo).branch(byte(b'b'), bar))),
    );
    assert_eq!(graph.merge(b, a).ok(), Some(merged));
    assert_eq!(graph.merge(a, b).ok(), Some(merged));
    assert_eq!(graph.nodes().len(), n);
}

#[test]
fn merging_forks_merges_their_shared_targets() {
    let mut graph: Graph<Leaf> = Graph::new();
    let foo = graph.push(Node::Leaf(Leaf::token("Foo".to_string()).priority(1)));
    let bar = graph.push(Node::Leaf(Leaf::token("Bar".to_string()).priority(1)));
    let x = graph.push(Node::Fork(Fork::new().branch(byte(b'x'), foo)));
    let y = graph.push(Node::Fork(Fork::new().branch(byte(b'y'), bar)));

    let mut fork = Fork::new().branch(byte(b'1'), x);
    fork.merge(Fork::new().branch(byte(b'1'), y), &mut graph).unwrap();

    let target = fork.get(b'1').unwrap();
    assert_eq!(graph.merge(x, y).ok(), Some(target));
}

#[test]
fn pushing_a_node_again_gives_its_id() {
    let mut graph: Graph<Leaf> = Graph::new();
    let token = graph.push(leaf("TOKEN"));
    let first = graph.push(Node::Rope(rope_of(b"abc", token)));
    let n = graph.nodes().len();
    let second = graph.push(Node::Rope(rope_of(b"abc", token)));
    assert_eq!(first, second);
    assert_eq!(graph.nodes().len(), n);

    let again = graph.push(leaf("TOKEN"));
    assert_eq!(again, NodeId::new(n));
    assert_eq!(graph.nodes().len(), n + 1);
}

#[test]
fn merging_two_forks_unions_their_branches() {
    let mut graph: Graph<Leaf> = Graph::new();
    let foo = graph.push(Node::Leaf(Leaf::token("Foo".to_string()).priority(1)));
    let bar = graph.push(Node::Leaf(Leaf::token("Bar".to_string()).priority(1)));
    let a = graph.push(Node::Fork(Fork::new().branch(byte(b'a'), foo).miss(Some(bar))));
    let b = graph.push(Node::Fork(Fork::new().branch(byte(b'b'), bar)));
    let merged = graph.merge(a, b).unwrap();
    assert_eq!(
        graph.get(merged),
        Some(&Node::Fork(Fork::new().branch(byte(b'a'), foo).branch(byte(b'b'), bar).miss(Some(bar)))),
    );
}

#[test]
fn rope_prefix_is_the_same_either_way() {
    let t = NodeId::new(0);
    let a = rope_of(b"foobar", t);
    let b = rope_of(b"foobaz", t);
    assert_eq!(a.prefix(&b), Some(Pattern::from_bytes(b"fooba")));
    assert_eq!(a.prefix(&b), b.prefix(&a));
    assert_eq!(rope_of(b"x", t).prefix(&b), None);
}

#[test]
fn regexes_without_merges_build() {
    for source in ["a[0-9]*b?", "(foo)?bar", "x(yz)+", "[a-z][0-9]*"] {
        let mut graph = Graph::new();
        let leaf_id = graph.push(leaf("LEAF"));
        assert!(graph.regex(true, source, leaf_id).is_ok(), "{}", source);
    }
}

#[test]
fn merging_a_fork_with_a_leaf_misses_to_the_leaf() {
    let mut graph: Graph<Leaf> = Graph::new();
    let foo = graph.push(Node::Leaf(Leaf::token("Foo".to_string()).priority(1)));
    let bar = graph.push(Node::Leaf(Leaf::token("Bar".to_string()).priority(1)));
    let a = graph.push(Node::Fork(Fork::new().branch(byte(b'a'), foo)));
    let merged = graph.merge(a, bar).unwrap();
    assert_eq!(graph.get(merged), Some(&Node::Fork(Fork::new().branch(byte(b'a'), foo).miss(Some(bar)))));
}

#[test]
fn merging_a_one_range_rope_with_a_fork_branches_on_both() {
    let mut graph: Graph<Leaf> = Graph::new();
    let foo = graph.push(Node::Leaf(Leaf::token("Foo".to_string()).priority(1)));
    let bar = graph.push(Node::Leaf(Leaf::token("Bar".to_string()).priority(1)));
    let a = graph.push(Node::Rope(rope_of(b"x", foo)));
    let b = graph.push(Node::Fork(Fork::new().branch(byte(b'y'), bar)));
    let merged = graph.merge(a, b).unwrap();
    assert_eq!(graph.get(merged), Some(&Node::Fork(Fork::new().branch(byte(b'x'), foo).branch(byte(b'y'), bar))));
}

#[test]
fn merging_a_long_rope_with_a_leaf_branches_to_the_rest_of_the_rope() {
    let mut graph: Graph<Leaf> = Graph::new();
    let foo = graph.push(Node::Leaf(Leaf::token("Foo".to_string()).priority(3)));
    let bar = graph.push(Node::Leaf(Leaf::token("Bar".to_string()).priority(1)));
    let a = graph.push(Node::Rope(rope_of(b"xyz", foo)));
    let merged = graph.merge(a, bar).unwrap();
    let fork = match graph.get(merged) {
        Some(Node::Fork(fork)) => fork,
        other => panic!("unexpected node {:?}", other),
    };
    assert_eq!(fork.miss, Some(bar));
    for b in 0..=255u8 {
        assert_eq!(fork.get(b).is_some(), b == b'x');
    }
    assert_eq!(graph.get(fork.get(b'x').unwrap()), Some(&Node::Rope(rope_of(b"yz", foo))));
}
