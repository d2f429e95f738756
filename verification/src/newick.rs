//! Trees in bracket notation: from text to tokens, from tokens to a tree, and
//! from a tree to text.

use crate::decimal::{decimal_at, decimal_text, read_decimal, write_decimal};
use crate::node::{copy_bytes, Node, NodeView};
use crate::round_trip::{are_read_tokens, lemma_built_is_plain, lemma_round_trip, lemma_text_tokens};
use vstd::prelude::*;

verus! {

/// One piece of the syntax of a tree that is written with brackets.
#[derive(Clone, Debug, PartialEq, Eq)]
pub enum Token {
    /// `(`, which opens a group of children.
    Open,
    /// `)`, which closes a group.
    Close,
    /// `,`, which stands between two children.
    Comma,
    /// The name of a node.
    Name(Vec<u8>),
    /// `:` and the branch length behind it, in units.
    Length(u64),
    /// `;`, which ends the tree.
    End,
}

/// The mathematical value of a [`Token`].
pub ghost enum TokenView {
    Open,
    Close,
    Comma,
    Name(Seq<u8>),
    Length(nat),
    End,
}

impl View for Token {
    type V = TokenView;

    open spec fn view(&self) -> TokenView {
        match *self {
            Token::Open => TokenView::Open,
            Token::Close => TokenView::Close,
            Token::Comma => TokenView::Comma,
            Token::Name(n) => TokenView::Name(n@),
            Token::Length(v) => TokenView::Length(v as nat),
            Token::End => TokenView::End,
        }
    }
}

/// The values of a sequence of tokens.
pub open spec fn token_views(s: Seq<Token>) -> Seq<TokenView> {
    Seq::new(s.len(), |i: int| s[i]@)
}

/// The text is not a tree in bracket notation: `position` is the index of the
/// first byte that cannot stand where it stands, or the length of the text
/// where the text ends too early.
#[derive(Clone, Copy, Debug, PartialEq, Eq)]
pub struct GrammarError {
    /// The index of the byte at which the text goes wrong.
    pub position: usize,
}

/// `(`, which opens a group.
pub const OPEN: u8 = 40;

/// `)`, which closes a group.
pub const CLOSE: u8 = 41;

/// `,`, which parts the members of a group.
pub const COMMA: u8 = 44;

/// `:`, which stands before a branch length.
pub const COLON: u8 = 58;

/// `;`, which ends a tree.
pub const SEMICOLON: u8 = 59;

/// The blank, the greatest of the bytes that are blanks or control
/// characters.
pub const BLANK: u8 = 32;

/// The control character above the printable ones.
pub const DELETE: u8 = 127;

/// `[`, which would open a comment.
pub const SQUARE_OPEN: u8 = 91;

/// `]`, which would close a comment.
pub const SQUARE_CLOSE: u8 = 93;

/// `"`, which would quote a name.
pub const QUOTE: u8 = 34;

/// `'`, which would quote a name.
pub const APOSTROPHE: u8 = 39;

/// A byte that can stand in a name: any byte but a blank, a control
/// character, a bracket, a quote, `,`, `:` and `;`.
pub open spec fn is_name_byte(b: u8) -> bool {
    &&& b > BLANK
    &&& b != DELETE
    &&& b != OPEN && b != CLOSE
    &&& b != COMMA
    &&& b != COLON && b != SEMICOLON
    &&& b != SQUARE_OPEN && b != SQUARE_CLOSE
    &&& b != QUOTE && b != APOSTROPHE
}

/// The end of the longest run of name bytes that starts at `i`.
pub open spec fn name_end(s: Seq<u8>, i: int) -> int
    decreases s.len() - i,
{
    if 0 <= i < s.len() && is_name_byte(s[i]) {
        name_end(s, i + 1)
    } else {
        i
    }
}

/// What a piece of grammar is at an index of the text: its tokens and the
/// index behind it, or the index at which the text goes wrong.
pub type Parsed = Result<(Seq<TokenView>, int), int>;

/// A label at `i`: a name or none, then `:` with a length or none.
pub open spec fn label_at(s: Seq<u8>, i: int) -> Parsed {
    let e = name_end(s, i);
    let name = if e > i {
        seq![TokenView::Name(s.subrange(i, e))]
    } else {
        Seq::empty()
    };
    if e < s.len() && s[e] == COLON {
        match decimal_at(s, e + 1) {
            Ok((units, end)) => Ok((name.push(TokenView::Length(units)), end)),
            Err(at) => Err(at),
        }
    } else {
        Ok((name, e))
    }
}

/// A subtree at `i`: a group of children in brackets or none, then a label.
pub open spec fn subtree_at(s: Seq<u8>, i: int) -> Parsed
    decreases s.len() - i, 0int,
{
    if 0 <= i < s.len() && s[i] == OPEN {
        match children_at(s, i + 1) {
            Ok((children, j)) => match label_at(s, j) {
                Ok((label, k)) => Ok((seq![TokenView::Open] + children + label, k)),
                Err(at) => Err(at),
            },
            Err(at) => Err(at),
        }
    } else {
        label_at(s, i)
    }
}

/// The rest of a group at `i`: one subtree, then `,` and the rest of the
/// group, or `)`.
pub open spec fn children_at(s: Seq<u8>, i: int) -> Parsed
    decreases s.len() - i, 1int,
{
    match subtree_at(s, i) {
        Ok((first, j)) => if i <= j < s.len() && s[j] == COMMA {
            match children_at(s, j + 1) {
                Ok((rest, k)) => Ok((first.push(TokenView::Comma) + rest, k)),
                Err(at) => Err(at),
            }
        } else if 0 <= j < s.len() && s[j] == CLOSE {
            Ok((first.push(TokenView::Close), j + 1))
        } else {
            Err(j)
        },
        Err(at) => Err(at),
    }
}

/// The tokens of a whole text: one subtree and `;`, and nothing behind it.
pub open spec fn tokens_of_text(s: Seq<u8>) -> Result<Seq<TokenView>, int> {
    match subtree_at(s, 0) {
        Ok((tree, j)) => if 0 <= j < s.len() && s[j] == SEMICOLON {
            if j + 1 == s.len() {
                Ok(tree.push(TokenView::End))
            } else {
                Err(j + 1)
            }
        } else {
            Err(j)
        },
        Err(at) => Err(at),
    }
}

/// What a reading function owes: the index behind what it read and the
/// tokens appended to `after`, or the index at which the text goes wrong.
pub open spec fn reads(
    spec_result: Parsed,
    r: Result<usize, usize>,
    before: Seq<Token>,
    after: Seq<Token>,
    i: int,
    len: int,
) -> bool {
    match spec_result {
        Ok((tokens, end)) => {
            &&& r == Ok::<usize, usize>(end as usize)
            &&& i <= end <= len
            &&& token_views(after) == token_views(before) + tokens
        },
        Err(at) => r == Err::<usize, usize>(at as usize) && i <= at <= len,
    }
}

/// Whether `b` can stand in a name.
fn is_name_byte_exec(b: u8) -> (r: bool)
    ensures
        r == is_name_byte(b),
{
    b > BLANK && b != DELETE && b != OPEN && b != CLOSE && b != COMMA && b != COLON && b
        != SEMICOLON && b != SQUARE_OPEN && b != SQUARE_CLOSE && b != QUOTE && b != APOSTROPHE
}

/// Reads the label at `i` and appends its tokens to `out`.
fn read_label(text: &[u8], i: usize, out: &mut Vec<Token>) -> (r: Result<usize, usize>)
    requires
        i <= text@.len(),
    ensures
        reads(label_at(text@, i as int), r, old(out)@, final(out)@, i as int, text@.len() as int),
{
    let n = text.len();
    let mut e = i;
    let mut name: Vec<u8> = Vec::new();
    while e < n && is_name_byte_exec(text[e])
        invariant
            i <= e <= n,
            n == text@.len(),
            name_end(text@, i as int) == name_end(text@, e as int),
            name@ == text@.subrange(i as int, e as int),
        decreases n - e,
    {
        name.push(text[e]);
        assert(text@.subrange(i as int, e + 1) =~= text@.subrange(i as int, e as int).push(
            text@[e as int],
        ));
        e += 1;
    }
    let ghost before = token_views(out@);
    if e > i {
        out.push(Token::Name(name));
        assert(token_views(out@) =~= before.push(
            TokenView::Name(text@.subrange(i as int, e as int)),
        ));
    }
    let ghost named = token_views(out@);
    assert(named =~= before + (if e > i {
        seq![TokenView::Name(text@.subrange(i as int, e as int))]
    } else {
        Seq::empty()
    }));
    if e < n && text[e] == COLON {
        match read_decimal(text, e + 1) {
            Ok((units, end)) => {
                out.push(Token::Length(units));
                assert(token_views(out@) =~= named.push(TokenView::Length(units as nat)));
                assert(token_views(out@) =~= before + label_at(text@, i as int)->Ok_0.0);
                Ok(end)
            },
            Err(at) => Err(at),
        }
    } else {
        Ok(e)
    }
}

/// Reads the subtree at `i` and appends its tokens to `out`.
fn read_subtree(text: &[u8], i: usize, out: &mut Vec<Token>) -> (r: Result<usize, usize>)
    requires
        i <= text@.len(),
    ensures
        reads(subtree_at(text@, i as int), r, old(out)@, final(out)@, i as int, text@.len() as int),
    decreases text@.len() - i, 0int,
{
    if i < text.len() && text[i] == OPEN {
        let ghost before = token_views(out@);
        out.push(Token::Open);
        assert(token_views(out@) =~= before.push(TokenView::Open));
        let j = match read_children(text, i + 1, out) {
            Ok(j) => j,
            Err(at) => {
                return Err(at);
            },
        };
        let ghost grouped = token_views(out@);
        match read_label(text, j, out) {
            Ok(k) => {
                assert(token_views(out@) =~= before + subtree_at(text@, i as int)->Ok_0.0);
                Ok(k)
            },
            Err(at) => Err(at),
        }
    } else {
        read_label(text, i, out)
    }
}

/// Reads the rest of the group at `i` and appends its tokens to `out`.
fn read_children(text: &[u8], i: usize, out: &mut Vec<Token>) -> (r: Result<usize, usize>)
    requires
        i <= text@.len(),
    ensures
        reads(
            children_at(text@, i as int),
            r,
            old(out)@,
            final(out)@,
            i as int,
            text@.len() as int,
        ),
    decreases text@.len() - i, 1int,
{
    let ghost before = token_views(out@);
    let j = match read_subtree(text, i, out) {
        Ok(j) => j,
        Err(at) => {
            return Err(at);
        },
    };
    let ghost first = token_views(out@);
    if j < text.len() && text[j] == COMMA {
        out.push(Token::Comma);
        assert(token_views(out@) =~= first.push(TokenView::Comma));
        match read_children(text, j + 1, out) {
            Ok(k) => {
                assert(token_views(out@) =~= before + children_at(text@, i as int)->Ok_0.0);
                Ok(k)
            },
            Err(at) => Err(at),
        }
    } else if j < text.len() && text[j] == CLOSE {
        out.push(Token::Close);
        assert(token_views(out@) =~= first.push(TokenView::Close));
        assert(token_views(out@) =~= before + children_at(text@, i as int)->Ok_0.0);
        Ok(j + 1)
    } else {
        Err(j)
    }
}

/// Reads a tree in bracket notation: nested groups in brackets, the members
/// of a group parted by `,`, behind each group or in place of one a name or
/// none, behind that `:` and a length or none, and `;` at the end. It gives
/// the tokens of the text in their order. A length is written as
/// [`decimal_at`] says: digits, with decimal places or without, and with an
/// exponent or without; it is read to nine decimal places, and it has no
/// sign. A name is a run of name bytes (see [`is_name_byte`]): the text holds
/// no blank, no quote and no comment.
pub fn parse(text: &[u8]) -> (r: Result<Vec<Token>, GrammarError>)
    ensures
        match tokens_of_text(text@) {
            Ok(tokens) => r matches Ok(v) && token_views(v@) == tokens && are_read_tokens(tokens),
            Err(at) => r matches Err(e) && e.position == at,
        },
{
    proof {
        lemma_text_tokens(text@);
    }
    let n = text.len();
    let mut out: Vec<Token> = Vec::new();
    let j = match read_subtree(text, 0, &mut out) {
        Ok(j) => j,
        Err(at) => {
            return Err(GrammarError { position: at });
        },
    };
    if j < n && text[j] == SEMICOLON {
        if j + 1 == n {
            let ghost tree = token_views(out@);
            out.push(Token::End);
            assert(token_views(out@) =~= tree.push(TokenView::End));
            assert(tree =~= Seq::<TokenView>::empty() + tree);
            Ok(out)
        } else {
            Err(GrammarError { position: j + 1 })
        }
    } else {
        Err(GrammarError { position: j })
    }
}

/// The tokens are not the tokens of one binary tree.
#[derive(Clone, Copy, Debug, PartialEq, Eq, Structural)]
pub enum StructureError {
    /// A group holds one member, or more than two.
    NonBinary,
    /// Tokens follow the `;` that ends the first tree.
    TrailingData,
    /// A token is missing or stands where it cannot stand.
    Malformed,
}

/// What is built from a token sequence at an index: the tree and the index
/// behind its tokens.
pub type Built = Result<(NodeView, int), StructureError>;

/// The node with the children given, and with the name and the length that
/// stand at `i`: a name token or none, then a length token or none. Without
/// a name token the name is empty; without a length token the length is zero.
pub open spec fn labelled(
    ts: Seq<TokenView>,
    i: int,
    left: Option<Box<NodeView>>,
    right: Option<Box<NodeView>>,
) -> (NodeView, int) {
    let (name, j) = if 0 <= i < ts.len() && ts[i] is Name {
        (ts[i]->Name_0, i + 1)
    } else {
        (Seq::empty(), i)
    };
    let (length, k) = if 0 <= j < ts.len() && ts[j] is Length {
        (ts[j]->Length_0, j + 1)
    } else {
        (0nat, j)
    };
    (NodeView { name: name, branch_length: length, depth: None, left: left, right: right }, k)
}

/// The tree whose tokens start at `i`: a leaf, which is a label alone, or
/// a group of two trees between `(`, `,` and `)` with a label behind it.
pub open spec fn built_at(ts: Seq<TokenView>, i: int) -> Built
    decreases ts.len() - i,
{
    if 0 <= i < ts.len() && ts[i] is Open {
        match built_at(ts, i + 1) {
            Ok((left, j)) => if !(i < j < ts.len()) {
                Err(StructureError::Malformed)
            } else if ts[j] is Close {
                Err(StructureError::NonBinary)
            } else if !(ts[j] is Comma) {
                Err(StructureError::Malformed)
            } else {
                match built_at(ts, j + 1) {
                    Ok((right, k)) => if !(0 <= k < ts.len()) {
                        Err(StructureError::Malformed)
                    } else if ts[k] is Comma {
                        Err(StructureError::NonBinary)
                    } else if !(ts[k] is Close) {
                        Err(StructureError::Malformed)
                    } else {
                        Ok(labelled(ts, k + 1, Some(Box::new(left)), Some(Box::new(right))))
                    },
                    Err(e) => Err(e),
                }
            },
            Err(e) => Err(e),
        }
    } else {
        Ok(labelled(ts, i, None, None))
    }
}

/// The tree that a whole token sequence stands for: the tokens of one tree,
/// then the end token, then nothing.
pub open spec fn tree_of_tokens(ts: Seq<TokenView>) -> Result<NodeView, StructureError> {
    match built_at(ts, 0) {
        Ok((tree, j)) => if 0 <= j < ts.len() && ts[j] is End {
            if j + 1 == ts.len() {
                Ok(tree)
            } else {
                Err(StructureError::TrailingData)
            }
        } else {
            Err(StructureError::Malformed)
        },
        Err(e) => Err(e),
    }
}

/// A tree that was built from tokens is binary.
pub proof fn lemma_built_is_binary(ts: Seq<TokenView>, i: int)
    ensures
        built_at(ts, i) matches Ok((tree, _)) ==> tree.is_binary(),
    decreases ts.len() - i,
{
    if 0 <= i < ts.len() && ts[i] is Open {
        lemma_built_is_binary(ts, i + 1);
        match built_at(ts, i + 1) {
            Ok((left, j)) => {
                if i < j < ts.len() {
                    lemma_built_is_binary(ts, j + 1);
                }
            },
            Err(e) => {},
        }
    }
}

/// What a building function owes.
pub open spec fn builds(
    spec_result: Built,
    r: Result<(Node, usize), StructureError>,
    i: int,
    len: int,
) -> bool {
    match spec_result {
        Ok((tree, end)) => r matches Ok((node, j)) && node@ == tree && j == end && i <= end <= len,
        Err(e) => r matches Err(f) && e == f,
    }
}

/// The node with the children given and the label that stands at `i`, and
/// the index behind the label.
fn build_labelled(
    tokens: &Vec<Token>,
    i: usize,
    left: Option<Box<Node>>,
    right: Option<Box<Node>>,
) -> (r: (Node, usize))
    requires
        i <= tokens@.len(),
    ensures
        r.0@ == labelled(
            token_views(tokens@),
            i as int,
            Node::child_view(left),
            Node::child_view(right),
        ).0,
        r.1 == labelled(
            token_views(tokens@),
            i as int,
            Node::child_view(left),
            Node::child_view(right),
        ).1,
        i <= r.1 <= tokens@.len(),
{
    let ghost ts = token_views(tokens@);
    let mut j = i;
    let mut name: Vec<u8> = Vec::new();
    if j < tokens.len() {
        assert(ts[j as int] == tokens@[j as int]@);
        match &tokens[j] {
            Token::Name(n) => {
                name = copy_bytes(n);
                j = j + 1;
            },
            _ => {},
        }
    }
    let mut length: u64 = 0;
    if j < tokens.len() {
        assert(ts[j as int] == tokens@[j as int]@);
        match &tokens[j] {
            Token::Length(v) => {
                length = *v;
                j = j + 1;
            },
            _ => {},
        }
    }
    (Node { name, branch_length: length, depth: None, left, right }, j)
}

/// Builds the tree whose tokens start at `i`, and gives it with the index
/// behind its tokens.
fn build_at(tokens: &Vec<Token>, i: usize) -> (r: Result<(Node, usize), StructureError>)
    requires
        i <= tokens@.len(),
    ensures
        builds(built_at(token_views(tokens@), i as int), r, i as int, tokens@.len() as int),
    decreases tokens@.len() - i,
{
    let ghost ts = token_views(tokens@);
    let n = tokens.len();
    if i < n {
        assert(ts[i as int] == tokens@[i as int]@);
    }
    if i < n && matches!(tokens[i], Token::Open) {
        let (left, j) = match build_at(tokens, i + 1) {
            Ok(built) => built,
            Err(e) => {
                return Err(e);
            },
        };
        if j >= n {
            return Err(StructureError::Malformed);
        }
        assert(ts[j as int] == tokens@[j as int]@);
        match &tokens[j] {
            Token::Close => {
                return Err(StructureError::NonBinary);
            },
            Token::Comma => {},
            _ => {
                return Err(StructureError::Malformed);
            },
        }
        let (right, k) = match build_at(tokens, j + 1) {
            Ok(built) => built,
            Err(e) => {
                return Err(e);
            },
        };
        if k >= n {
            return Err(StructureError::Malformed);
        }
        assert(ts[k as int] == tokens@[k as int]@);
        match &tokens[k] {
            Token::Comma => {
                return Err(StructureError::NonBinary);
            },
            Token::Close => {},
            _ => {
                return Err(StructureError::Malformed);
            },
        }
        Ok(build_labelled(tokens, k + 1, Some(Box::new(left)), Some(Box::new(right))))
    } else {
        Ok(build_labelled(tokens, i, None, None))
    }
}

/// Builds the tree that the tokens stand for. The tokens must be those of
/// one tree in which every group has two members, with the end token as the
/// last one. No node of the tree has a depth yet, and the root keeps the
/// length that is written behind it.
pub fn newick_to_tree(tokens: &Vec<Token>) -> (r: Result<Node, StructureError>)
    ensures
        match tree_of_tokens(token_views(tokens@)) {
            Ok(tree) => r matches Ok(node) && node@ == tree && tree.is_binary() && (
            are_read_tokens(token_views(tokens@)) ==> tree.is_plain()),
            Err(e) => r matches Err(f) && e == f,
        },
{
    let ghost ts = token_views(tokens@);
    proof {
        lemma_built_is_binary(ts, 0);
        if are_read_tokens(ts) {
            lemma_built_is_plain(ts, 0);
        }
    }
    let (tree, j) = match build_at(tokens, 0) {
        Ok(built) => built,
        Err(e) => {
            return Err(e);
        },
    };
    if j >= tokens.len() {
        return Err(StructureError::Malformed);
    }
    assert(ts[j as int] == tokens@[j as int]@);
    match &tokens[j] {
        Token::End => {
            if j + 1 == tokens.len() {
                Ok(tree)
            } else {
                Err(StructureError::TrailingData)
            }
        },
        _ => Err(StructureError::Malformed),
    }
}

/// How a subtree is written: its children, if it has any, in brackets and
/// parted by `,`; then its name; then `:` and its branch length. The length
/// of the root is left out where it is zero.
pub open spec fn subtree_text(t: NodeView, is_root: bool) -> Seq<u8>
    decreases t,
{
    let group = match (t.left, t.right) {
        (Some(l), Some(r)) => seq![OPEN] + subtree_text(*l, false) + seq![COMMA] + subtree_text(
            *r,
            false,
        ) + seq![CLOSE],
        (Some(l), None) => seq![OPEN] + subtree_text(*l, false) + seq![CLOSE],
        (None, Some(r)) => seq![OPEN] + subtree_text(*r, false) + seq![CLOSE],
        (None, None) => Seq::empty(),
    };
    let length = if is_root && t.branch_length == 0 {
        Seq::empty()
    } else {
        seq![COLON] + decimal_text(t.branch_length)
    };
    group + t.name + length
}

/// How a whole tree is written: the text of its root and `;`.
pub open spec fn tree_text(t: NodeView) -> Seq<u8> {
    subtree_text(t, true).push(SEMICOLON)
}

/// The text of a tree does not show its depths.
pub proof fn lemma_text_without_depths(t: NodeView, is_root: bool, start: nat)
    ensures
        subtree_text(t.with_depths(start), is_root) == subtree_text(t, is_root),
    decreases t,
{
    match t.left {
        Some(l) => lemma_text_without_depths(*l, false, start + l.branch_length),
        None => {},
    }
    match t.right {
        Some(r) => lemma_text_without_depths(*r, false, start + r.branch_length),
        None => {},
    }
}

/// How the children of a node are written: in brackets and parted by `,`;
/// without children, nothing.
pub open spec fn group_text(t: NodeView) -> Seq<u8> {
    match (t.left, t.right) {
        (Some(l), Some(r)) => seq![OPEN] + subtree_text(*l, false) + seq![COMMA] + subtree_text(
            *r,
            false,
        ) + seq![CLOSE],
        (Some(l), None) => seq![OPEN] + subtree_text(*l, false) + seq![CLOSE],
        (None, Some(r)) => seq![OPEN] + subtree_text(*r, false) + seq![CLOSE],
        (None, None) => Seq::empty(),
    }
}

/// How the branch length of a node is written: `:` and the amount; for
/// a root of length zero, nothing.
pub open spec fn length_text(t: NodeView, is_root: bool) -> Seq<u8> {
    if is_root && t.branch_length == 0 {
        Seq::empty()
    } else {
        seq![COLON] + decimal_text(t.branch_length)
    }
}

/// The text of a subtree is its group, its name and its length.
pub proof fn lemma_subtree_text(t: NodeView, is_root: bool)
    ensures
        subtree_text(t, is_root) == group_text(t) + t.name + length_text(t, is_root),
{
}

/// Appends to `out` how the children of `node` are written.
fn write_group(node: &Node, out: &mut Vec<u8>)
    ensures
        final(out)@ == old(out)@ + group_text(node@),
    decreases node, 0int,
{
    let ghost before = out@;
    match &node.left {
        Some(l) => {
            assert(node@.left == Some(Box::new(l@)));
            out.push(OPEN);
            write_subtree(l, false, out);
            let ghost first = out@;
            assert(first == before.push(OPEN) + subtree_text(l@, false));
            match &node.right {
                Some(r) => {
                    assert(node@.right == Some(Box::new(r@)));
                    out.push(COMMA);
                    write_subtree(r, false, out);
                    out.push(CLOSE);
                    assert(out@ == (first.push(COMMA) + subtree_text(r@, false)).push(CLOSE));
                    assert(out@ =~= before + (seq![OPEN] + subtree_text(l@, false) + seq![COMMA]
                        + subtree_text(r@, false) + seq![CLOSE]));
                },
                None => {
                    assert(node@.right is None);
                    out.push(CLOSE);
                    assert(out@ =~= before + (seq![OPEN] + subtree_text(l@, false) + seq![CLOSE]));
                },
            }
        },
        None => {
            assert(node@.left is None);
            match &node.right {
                Some(r) => {
                    assert(node@.right == Some(Box::new(r@)));
                    out.push(OPEN);
                    write_subtree(r, false, out);
                    out.push(CLOSE);
                    assert(out@ =~= before + (seq![OPEN] + subtree_text(r@, false) + seq![CLOSE]));
                },
                None => {
                    assert(node@.right is None);
                    assert(out@ =~= before + Seq::<u8>::empty());
                },
            }
        },
    }
}

/// Appends to `out` how the subtree under `node` is written.
fn write_subtree(node: &Node, is_root: bool, out: &mut Vec<u8>)
    ensures
        final(out)@ == old(out)@ + subtree_text(node@, is_root),
    decreases node, 1int,
{
    let ghost before = out@;
    write_group(node, out);
    out.extend_from_slice(node.name.as_slice());
    let ghost named = out@;
    assert(named == before + group_text(node@) + node@.name);
    if !(is_root && node.branch_length == 0) {
        out.push(COLON);
        write_decimal(node.branch_length, out);
        assert(out@ == named.push(COLON) + decimal_text(node@.branch_length));
        assert(out@ =~= named + (seq![COLON] + decimal_text(node@.branch_length)));
    } else {
        assert(out@ =~= named + Seq::<u8>::empty());
    }
    proof {
        lemma_subtree_text(node@, is_root);
        assert(out@ =~= before + (group_text(node@) + node@.name + length_text(node@, is_root)));
    }
}

/// Writes the tree under `node` in bracket notation, without the `;` that
/// ends a whole tree: a node with children as `(left,right)name:length`,
/// a leaf as `name:length`. The length of `node` itself, which is taken for
/// the root, is left out where it is zero.
pub fn node_to_newick(node: &Node) -> (r: Vec<u8>)
    ensures
        r@ == subtree_text(node@, true),
{
    let mut out: Vec<u8> = Vec::new();
    write_subtree(node, true, &mut out);
    out
}

/// Writes the whole tree in bracket notation, with `;` at its end. What is
/// written of a tree as it is read from text is read as that tree again.
pub fn serialize(node: &Node) -> (r: Vec<u8>)
    ensures
        r@ == tree_text(node@),
        node@.is_plain() ==> tokens_of_text(r@) is Ok && tree_of_tokens(tokens_of_text(r@)->Ok_0)
            == Ok::<NodeView, StructureError>(node@),
{
    proof {
        if node@.is_plain() {
            lemma_round_trip(node@);
        }
    }
    let mut out = node_to_newick(node);
    out.push(SEMICOLON);
    out
}

} // verus!
