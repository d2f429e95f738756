use species_tree_sampler::newick::{
    newick_to_tree, node_to_newick, parse, serialize, GrammarError, StructureError, Token,
};
use species_tree_sampler::node::Node;

fn name(n: &str) -> Token {
    Token::Name(n.as_bytes().to_vec())
}

fn one(units: u64) -> Token {
    Token::Length(units * 1_000_000_000)
}

fn leaf(n: &str, length: u64) -> Node {
    Node {
        name: n.as_bytes().to_vec(),
        branch_length: length,
        depth: None,
        left: None,
        right: None,
    }
}

fn fork(n: &str, length: u64, left: Node, right: Node) -> Node {
    Node {
        name: n.as_bytes().to_vec(),
        branch_length: length,
        depth: None,
        left: Some(Box::new(left)),
        right: Some(Box::new(right)),
    }
}

fn read(text: &str) -> Node {
    newick_to_tree(&parse(text.as_bytes()).unwrap()).unwrap()
}

fn text_of(node: &Node) -> String {
    String::from_utf8(serialize(node)).unwrap()
}

#[test]
fn parse_gives_the_tokens_in_their_order() {
    let tokens = parse(b"(A:1,(B:2,C:3):1);").unwrap();
    assert_eq!(
        tokens,
        vec![
            Token::Open,
            name("A"),
            one(1),
            Token::Comma,
            Token::Open,
            name("B"),
            one(2),
            Token::Comma,
            name("C"),
            one(3),
            Token::Close,
            one(1),
            Token::Close,
            Token::End,
        ]
    );
}

#[test]
fn parse_takes_names_and_lengths_as_optional() {
    assert_eq!(parse(b";").unwrap(), vec![Token::End]);
    assert_eq!(parse(b"A;").unwrap(), vec![name("A"), Token::End]);
    assert_eq!(parse(b":2;").unwrap(), vec![one(2), Token::End]);
    assert_eq!(
        parse(b"(,);").unwrap(),
        vec![Token::Open, Token::Comma, Token::Close, Token::End]
    );
    assert_eq!(
        parse(b"(A,B)root:0.5;").unwrap(),
        vec![
            Token::Open,
            name("A"),
            Token::Comma,
            name("B"),
            Token::Close,
            name("root"),
            Token::Length(500_000_000),
            Token::End,
        ]
    );
}

#[test]
fn parse_reads_lengths_with_exponents() {
    assert_eq!(
        parse(b"(A:1.5e-3,B:2E2);").unwrap(),
        vec![
            Token::Open,
            name("A"),
            Token::Length(1_500_000),
            Token::Comma,
            name("B"),
            Token::Length(200_000_000_000),
            Token::Close,
            Token::End,
        ]
    );
}

#[test]
fn parse_does_not_ask_for_two_children() {
    assert_eq!(
        parse(b"(A);").unwrap(),
        vec![Token::Open, name("A"), Token::Close, Token::End]
    );
    assert_eq!(parse(b"(A,B,C);").unwrap().len(), 8);
}

#[test]
fn parse_takes_any_byte_that_is_no_delimiter_into_a_name() {
    assert_eq!(
        parse("Homo_sapiens|9606.1-x\u{e9};".as_bytes()).unwrap(),
        vec![name("Homo_sapiens|9606.1-x\u{e9}"), Token::End]
    );
    assert_eq!(parse(b"12;").unwrap(), vec![name("12"), Token::End]);
}

#[test]
fn parse_reports_unbalanced_brackets() {
    assert_eq!(parse(b"((A,B);"), Err(GrammarError { position: 6 }));
    assert_eq!(parse(b"(A,B));"), Err(GrammarError { position: 5 }));
    assert_eq!(parse(b"(A,B"), Err(GrammarError { position: 4 }));
    assert_eq!(parse(b")"), Err(GrammarError { position: 0 }));
}

#[test]
fn parse_reports_a_length_that_is_no_number() {
    assert_eq!(parse(b"A:;"), Err(GrammarError { position: 2 }));
    assert_eq!(parse(b"A:abc;"), Err(GrammarError { position: 2 }));
    assert_eq!(parse(b"A:1.;"), Err(GrammarError { position: 4 }));
    assert_eq!(parse(b"A:-1;"), Err(GrammarError { position: 2 }));
    assert_eq!(parse(b"A:1e;"), Err(GrammarError { position: 4 }));
    assert_eq!(parse(b"A:1x5;"), Err(GrammarError { position: 3 }));
    assert_eq!(parse(b"(A:1:2,B);"), Err(GrammarError { position: 4 }));
    assert_eq!(parse(b"A:99999999999999999999;"), Err(GrammarError { position: 2 }));
}

#[test]
fn parse_reports_an_unexpected_byte() {
    assert_eq!(parse(b"(A, B);"), Err(GrammarError { position: 3 }));
    assert_eq!(parse(b"(A,B);\n"), Err(GrammarError { position: 6 }));
    assert_eq!(parse(b"('A',B);"), Err(GrammarError { position: 1 }));
    assert_eq!(parse(b"(A[x],B);"), Err(GrammarError { position: 2 }));
    assert_eq!(parse(b"A B;"), Err(GrammarError { position: 1 }));
}

#[test]
fn parse_reports_a_missing_end_and_what_follows_the_end() {
    assert_eq!(parse(b""), Err(GrammarError { position: 0 }));
    assert_eq!(parse(b"(A,B)"), Err(GrammarError { position: 5 }));
    assert_eq!(parse(b"(A,B);;"), Err(GrammarError { position: 6 }));
    assert_eq!(parse(b"(A,B);(C,D);"), Err(GrammarError { position: 6 }));
}

#[test]
fn builds_the_tree_of_the_tokens() {
    let tree = read("(A:1,(B:2,C:3)bc:1)r:4;");
    let b = 1_000_000_000;
    assert_eq!(
        tree,
        fork("r", 4 * b, leaf("A", b), fork("bc", b, leaf("B", 2 * b), leaf("C", 3 * b)))
    );
}

#[test]
fn builds_nodes_without_depth_and_keeps_the_length_of_the_root() {
    let tree = read("(A:1,B:2):7;");
    assert_eq!(tree.depth, None);
    assert_eq!(tree.left.as_ref().unwrap().depth, None);
    assert_eq!(tree.branch_length, 7_000_000_000);
}

#[test]
fn builds_empty_names_and_zero_lengths_where_none_are_written() {
    assert_eq!(read(";"), leaf("", 0));
    assert_eq!(read("(,);"), fork("", 0, leaf("", 0), leaf("", 0)));
}

#[test]
fn build_rejects_a_group_of_one() {
    let tokens = parse(b"(A);").unwrap();
    assert_eq!(newick_to_tree(&tokens), Err(StructureError::NonBinary));
    let tokens = parse(b"((A,B));").unwrap();
    assert_eq!(newick_to_tree(&tokens), Err(StructureError::NonBinary));
}

#[test]
fn build_rejects_a_group_of_three() {
    let tokens = parse(b"(A,B,C);").unwrap();
    assert_eq!(newick_to_tree(&tokens), Err(StructureError::NonBinary));
}

#[test]
fn build_rejects_tokens_behind_the_end() {
    let tokens = vec![name("A"), Token::End, name("B"), Token::End];
    assert_eq!(newick_to_tree(&tokens), Err(StructureError::TrailingData));
    let tokens = vec![name("A"), Token::End, Token::End];
    assert_eq!(newick_to_tree(&tokens), Err(StructureError::TrailingData));
}

#[test]
fn build_rejects_tokens_that_are_no_tree() {
    assert_eq!(newick_to_tree(&vec![]), Err(StructureError::Malformed));
    assert_eq!(newick_to_tree(&vec![name("A")]), Err(StructureError::Malformed));
    assert_eq!(
        newick_to_tree(&vec![name("A"), name("B"), Token::End]),
        Err(StructureError::Malformed)
    );
    assert_eq!(
        newick_to_tree(&vec![one(1), name("A"), Token::End]),
        Err(StructureError::Malformed)
    );
    assert_eq!(
        newick_to_tree(&vec![Token::Open, name("A"), Token::End]),
        Err(StructureError::Malformed)
    );
    assert_eq!(
        newick_to_tree(&vec![Token::Open, name("A"), Token::Comma, name("B"), Token::End]),
        Err(StructureError::Malformed)
    );
    assert_eq!(newick_to_tree(&vec![Token::Close, Token::End]), Err(StructureError::Malformed));
}

#[test]
fn writes_children_name_and_length() {
    let b = 1_000_000_000;
    let tree = fork("r", 0, leaf("A", b), fork("bc", b / 2, leaf("B", 2 * b), leaf("C", 3 * b)));
    assert_eq!(text_of(&tree), "(A:1,(B:2,C:3)bc:0.5)r;");
    assert_eq!(node_to_newick(&tree), b"(A:1,(B:2,C:3)bc:0.5)r".to_vec());
}

#[test]
fn writes_the_length_of_the_root_unless_it_is_zero() {
    let b = 1_000_000_000;
    assert_eq!(text_of(&fork("", 0, leaf("A", b), leaf("B", b))), "(A:1,B:1);");
    assert_eq!(text_of(&fork("", 2 * b, leaf("A", b), leaf("B", b))), "(A:1,B:1):2;");
    assert_eq!(text_of(&leaf("A", 0)), "A;");
    assert_eq!(text_of(&leaf("", 0)), ";");
}

#[test]
fn writes_a_length_of_zero_below_the_root() {
    assert_eq!(text_of(&fork("", 0, leaf("A", 0), leaf("B", 0))), "(A:0,B:0);");
}

#[test]
fn writes_no_depth() {
    let mut tree = fork("", 0, leaf("A", 1_000_000_000), leaf("B", 2_000_000_000));
    tree.assign_depths(0);
    assert_eq!(text_of(&tree), "(A:1,B:2);");
}

#[test]
fn writes_a_node_with_one_child_in_brackets() {
    let tree = Node {
        name: b"p".to_vec(),
        branch_length: 0,
        depth: None,
        left: None,
        right: Some(Box::new(leaf("A", 1_000_000_000))),
    };
    assert_eq!(text_of(&tree), "(A:1)p;");
}

#[test]
fn what_is_written_is_read_as_the_same_tree() {
    for text in [
        ";",
        "A;",
        "(A:1,B:2);",
        "(A:1,(B:2,C:3):1);",
        "((A:0.001,B:12.5)ab:0.000000001,(C:3,(D:4,E:0)de:7)cde:2)root:9;",
        "(,);",
        "((,),(,));",
    ] {
        let tree = read(text);
        let written = serialize(&tree);
        let again = newick_to_tree(&parse(&written).unwrap()).unwrap();
        assert_eq!(again, tree);
    }
}

#[test]
fn what_is_read_is_written_as_the_same_text() {
    for text in ["A;", "(A:1,B:2);", "(A:1,(B:2,C:3)x:1)y:0.5;", "((A:0.25,B:0.5):1,C:10);"] {
        assert_eq!(text_of(&read(text)), text);
    }
}
