//! What is written of a tree is read as that tree again.

use crate::decimal::{decimal_text, lemma_decimal_text_is_read, lemma_digit_run};
use crate::newick::{
    built_at, children_at, group_text, is_name_byte, label_at, labelled, length_text,
    lemma_subtree_text, name_end, subtree_at, subtree_text, tokens_of_text, tree_of_tokens,
    tree_text, StructureError, TokenView, CLOSE, COLON, COMMA, OPEN, SEMICOLON,
};
use crate::node::NodeView;
use vstd::prelude::*;

verus! {

impl NodeView {
    /// A tree as it is read from text: every node has no child or two, a
    /// name of name bytes, a branch length that can be held, and no depth.
    pub open spec fn is_plain(self) -> bool
        decreases self,
    {
        &&& self.left is Some <==> self.right is Some
        &&& self.depth is None
        &&& self.branch_length <= u64::MAX
        &&& forall|k: int| 0 <= k < self.name.len() ==> is_name_byte(#[trigger] self.name[k])
        &&& self.left matches Some(l) ==> l.is_plain()
        &&& self.right matches Some(r) ==> r.is_plain()
    }
}

/// The tokens of the name of a node: the name, or nothing where it is empty.
pub open spec fn name_tokens(t: NodeView) -> Seq<TokenView> {
    if t.name.len() > 0 {
        seq![TokenView::Name(t.name)]
    } else {
        Seq::empty()
    }
}

/// The tokens of the branch length of a node: the length, or nothing for
/// a root of length zero.
pub open spec fn length_tokens(t: NodeView, is_root: bool) -> Seq<TokenView> {
    if is_root && t.branch_length == 0 {
        Seq::empty()
    } else {
        seq![TokenView::Length(t.branch_length)]
    }
}

/// The tokens of a binary tree, in the order in which it is written.
pub open spec fn tokens_of(t: NodeView, is_root: bool) -> Seq<TokenView>
    decreases t,
{
    (match (t.left, t.right) {
        (Some(l), Some(r)) => seq![TokenView::Open] + tokens_of(*l, false) + seq![
            TokenView::Comma,
        ] + tokens_of(*r, false) + seq![TokenView::Close],
        _ => Seq::empty(),
    }) + name_tokens(t) + length_tokens(t, is_root)
}

/// Nothing stands at `i`, or one of `,`, `)` and `;`.
pub open spec fn ends_at(s: Seq<u8>, i: int) -> bool {
    i == s.len() || s[i] == COMMA || s[i] == CLOSE || s[i] == SEMICOLON
}

/// No token stands at `i`, or a comma, a closing bracket or the end token.
pub open spec fn tokens_end_at(ts: Seq<TokenView>, i: int) -> bool {
    i == ts.len() || ts[i] is Comma || ts[i] is Close || ts[i] is End
}

/// The end of a run of name bytes that something else follows.
pub proof fn lemma_name_end(s: Seq<u8>, i: int, e: int)
    requires
        0 <= i <= e <= s.len(),
        forall|k: int| i <= k < e ==> is_name_byte(#[trigger] s[k]),
        e == s.len() || !is_name_byte(s[e]),
    ensures
        name_end(s, i) == e,
    decreases e - i,
{
    if i < e {
        lemma_name_end(s, i + 1, e);
    }
}

/// A run of name bytes holds name bytes only.
pub proof fn lemma_name_bytes(s: Seq<u8>, i: int)
    requires
        0 <= i,
    ensures
        i <= name_end(s, i) <= s.len() || name_end(s, i) == i,
        forall|k: int| i <= k < name_end(s, i) ==> is_name_byte(#[trigger] s[k]),
    decreases s.len() - i,
{
    if i < s.len() && is_name_byte(s[i]) {
        lemma_name_bytes(s, i + 1);
    }
}

/// `part` stands in `s` from `i` on.
pub open spec fn holds(s: Seq<u8>, i: int, part: Seq<u8>) -> bool {
    &&& 0 <= i
    &&& i + part.len() <= s.len()
    &&& forall|k: int| 0 <= k < part.len() ==> s[i + k] == #[trigger] part[k]
}

/// The label of a node that was written is read again as it was.
pub proof fn lemma_label_is_read(s: Seq<u8>, i: int, t: NodeView, is_root: bool)
    requires
        t.is_plain(),
        holds(s, i, t.name + length_text(t, is_root)),
        ends_at(s, i + (t.name + length_text(t, is_root)).len()),
    ensures
        label_at(s, i) == Ok::<(Seq<TokenView>, int), int>(
            (
                name_tokens(t) + length_tokens(t, is_root),
                i + (t.name + length_text(t, is_root)).len(),
            ),
        ),
{
    let text = t.name + length_text(t, is_root);
    let end = i + text.len();
    let e = i + t.name.len();
    assert forall|k: int| i <= k < e implies is_name_byte(#[trigger] s[k]) by {
        assert(text[k - i] == t.name[k - i]);
        assert(s[i + (k - i)] == text[k - i]);
    }
    assert(s.subrange(i, e) =~= t.name) by {
        assert forall|k: int| 0 <= k < t.name.len() implies s.subrange(i, e)[k] == t.name[k] by {
            assert(text[k] == t.name[k]);
            assert(s[i + k] == text[k]);
        }
    }
    if is_root && t.branch_length == 0 {
        assert(e == end);
        lemma_name_end(s, i, e);
        assert(name_tokens(t) + length_tokens(t, is_root) =~= name_tokens(t));
    } else {
        let amount = decimal_text(t.branch_length);
        assert(text[t.name.len() as int] == COLON);
        assert(s[i + t.name.len()] == text[t.name.len() as int]);
        lemma_name_end(s, i, e);
        assert(s.subrange(e + 1, e + 1 + amount.len()) =~= amount) by {
            assert forall|k: int| 0 <= k < amount.len() implies s.subrange(
                e + 1,
                e + 1 + amount.len(),
            )[k] == amount[k] by {
                assert(text[t.name.len() + 1 + k] == amount[k]);
                assert(s[i + (t.name.len() + 1 + k)] == text[t.name.len() + 1 + k]);
            }
        }
        lemma_decimal_text_is_read(s, e + 1, t.branch_length);
        assert(name_tokens(t) + length_tokens(t, is_root) =~= name_tokens(t).push(
            TokenView::Length(t.branch_length),
        ));
    }
}

/// What stands in `s` where a text of two parts stands.
pub proof fn lemma_holds_parts(s: Seq<u8>, i: int, a: Seq<u8>, b: Seq<u8>)
    requires
        holds(s, i, a + b),
    ensures
        holds(s, i, a),
        holds(s, i + a.len(), b),
{
    assert forall|k: int| 0 <= k < a.len() implies s[i + k] == #[trigger] a[k] by {
        assert((a + b)[k] == a[k]);
    }
    assert forall|k: int| 0 <= k < b.len() implies s[i + a.len() + k] == #[trigger] b[k] by {
        assert((a + b)[a.len() + k] == b[k]);
        assert(s[i + (a.len() + k)] == (a + b)[a.len() + k]);
    }
}

/// The first byte of the text of a subtree is not one that ends a subtree,
/// and it opens a group only where the subtree has children.
pub proof fn lemma_first_byte(t: NodeView, is_root: bool)
    requires
        t.is_plain(),
    ensures
        subtree_text(t, is_root).len() > 0 ==> {
            let b = subtree_text(t, is_root)[0];
            &&& (b == OPEN <==> t.left is Some)
        },
{
    lemma_subtree_text(t, is_root);
    let text = subtree_text(t, is_root);
    if t.left is None {
        assert(group_text(t) =~= Seq::<u8>::empty());
        if text.len() > 0 {
            if t.name.len() > 0 {
                assert(text[0] == t.name[0]);
            } else {
                assert(text[0] == length_text(t, is_root)[0]);
            }
        }
    } else {
        assert(group_text(t)[0] == OPEN);
        assert(text[0] == group_text(t)[0]);
    }
}

/// Where the group of a node with two children stands: the brackets, the
/// comma, and the texts of the two children between them.
pub proof fn lemma_group_parts(s: Seq<u8>, i: int, t: NodeView)
    requires
        t.left is Some,
        t.right is Some,
        holds(s, i, group_text(t)),
    ensures
        ({
            let tl = subtree_text(*t.left->0, false);
            let tr = subtree_text(*t.right->0, false);
            let j = i + 1 + tl.len();
            let k = j + 1 + tr.len();
            &&& group_text(t).len() == 3 + tl.len() + tr.len()
            &&& s[i] == OPEN
            &&& holds(s, i + 1, tl)
            &&& s[j] == COMMA
            &&& holds(s, j + 1, tr)
            &&& s[k] == CLOSE
        }),
{
    let tl = subtree_text(*t.left->0, false);
    let tr = subtree_text(*t.right->0, false);
    let group = group_text(t);
    let nl = tl.len() as int;
    let nr = tr.len() as int;
    let j = i + 1 + nl;
    let k = j + 1 + nr;
    assert(group == seq![OPEN] + tl + seq![COMMA] + tr + seq![CLOSE]);
    assert(group[0] == OPEN);
    assert(s[i + 0] == group[0]);
    assert forall|m: int| 0 <= m < tl.len() implies s[i + 1 + m] == #[trigger] tl[m] by {
        assert(group[1 + m] == tl[m]);
        assert(s[i + (1 + m)] == group[1 + m]);
    }
    assert(group[1 + nl] == COMMA);
    assert(s[i + (1 + nl)] == group[1 + nl]);
    assert forall|m: int| 0 <= m < tr.len() implies s[j + 1 + m] == #[trigger] tr[m] by {
        assert(group[2 + nl + m] == tr[m]);
        assert(s[i + (2 + nl + m)] == group[2 + nl + m]);
    }
    assert(group[2 + nl + nr] == CLOSE);
    assert(s[i + (2 + nl + nr)] == group[2 + nl + nr]);
}

/// The group that is read where two subtrees stand between brackets.
pub proof fn lemma_group_is_read(
    s: Seq<u8>,
    i: int,
    kl: Seq<TokenView>,
    j: int,
    kr: Seq<TokenView>,
    k: int,
)
    requires
        0 <= i < j < k < s.len(),
        s[i] == OPEN,
        subtree_at(s, i + 1) == Ok::<(Seq<TokenView>, int), int>((kl, j)),
        s[j] == COMMA,
        subtree_at(s, j + 1) == Ok::<(Seq<TokenView>, int), int>((kr, k)),
        s[k] == CLOSE,
    ensures
        children_at(s, i + 1) == Ok::<(Seq<TokenView>, int), int>(
            (kl.push(TokenView::Comma) + kr.push(TokenView::Close), k + 1),
        ),
{
    assert(children_at(s, j + 1) == Ok::<(Seq<TokenView>, int), int>(
        (kr.push(TokenView::Close), k + 1),
    ));
}

/// Where the texts of the children of a node stand, and where they end.
pub proof fn lemma_children_stand(s: Seq<u8>, i: int, t: NodeView, is_root: bool)
    requires
        t.left is Some,
        t.right is Some,
        holds(s, i, subtree_text(t, is_root)),
        ends_at(s, i + subtree_text(t, is_root).len()),
    ensures
        ({
            let tl = subtree_text(*t.left->0, false);
            let tr = subtree_text(*t.right->0, false);
            let label = t.name + length_text(t, is_root);
            let j = i + 1 + tl.len();
            let k = j + 1 + tr.len();
            &&& 0 <= i < j < k < s.len()
            &&& s[i] == OPEN
            &&& holds(s, i + 1, tl)
            &&& s[j] == COMMA
            &&& holds(s, j + 1, tr)
            &&& s[k] == CLOSE
            &&& holds(s, k + 1, label)
            &&& k + 1 + label.len() == i + subtree_text(t, is_root).len()
        }),
{
    lemma_subtree_text(t, is_root);
    let text = subtree_text(t, is_root);
    let label = t.name + length_text(t, is_root);
    assert(text =~= group_text(t) + label);
    lemma_holds_parts(s, i, group_text(t), label);
    lemma_group_parts(s, i, t);
}

/// The subtree that is read where a group and a label stand.
pub proof fn lemma_fork_is_read(
    s: Seq<u8>,
    i: int,
    kl: Seq<TokenView>,
    j: int,
    kr: Seq<TokenView>,
    k: int,
    labels: Seq<TokenView>,
    end: int,
)
    requires
        0 <= i < j < k < s.len(),
        s[i] == OPEN,
        subtree_at(s, i + 1) == Ok::<(Seq<TokenView>, int), int>((kl, j)),
        s[j] == COMMA,
        subtree_at(s, j + 1) == Ok::<(Seq<TokenView>, int), int>((kr, k)),
        s[k] == CLOSE,
        label_at(s, k + 1) == Ok::<(Seq<TokenView>, int), int>((labels, end)),
    ensures
        subtree_at(s, i) == Ok::<(Seq<TokenView>, int), int>(
            (
                seq![TokenView::Open] + kl + seq![TokenView::Comma] + kr + seq![TokenView::Close]
                    + labels,
                end,
            ),
        ),
{
    lemma_group_is_read(s, i, kl, j, kr, k);
    let children = kl.push(TokenView::Comma) + kr.push(TokenView::Close);
    assert(seq![TokenView::Open] + children + labels =~= seq![TokenView::Open] + kl + seq![
        TokenView::Comma,
    ] + kr + seq![TokenView::Close] + labels);
}

/// The subtree that is read where the text of a plain leaf stands.
pub proof fn lemma_leaf_is_read(s: Seq<u8>, i: int, t: NodeView, is_root: bool)
    requires
        t.is_plain(),
        t.left is None,
        holds(s, i, subtree_text(t, is_root)),
        ends_at(s, i + subtree_text(t, is_root).len()),
    ensures
        subtree_at(s, i) == Ok::<(Seq<TokenView>, int), int>(
            (name_tokens(t) + length_tokens(t, is_root), i + subtree_text(t, is_root).len()),
        ),
{
    lemma_subtree_text(t, is_root);
    lemma_first_byte(t, is_root);
    let text = subtree_text(t, is_root);
    let label = t.name + length_text(t, is_root);
    assert(group_text(t) =~= Seq::<u8>::empty());
    assert(text =~= label);
    if text.len() > 0 {
        assert(s[i + 0] == text[0]);
    }
    lemma_label_is_read(s, i, t, is_root);
}

/// The tokens of a tree with two children, and of one without children.
pub proof fn lemma_tokens_of(t: NodeView, is_root: bool)
    requires
        t.left is Some <==> t.right is Some,
    ensures
        t.left is Some ==> tokens_of(t, is_root) == seq![TokenView::Open] + tokens_of(
            *t.left->0,
            false,
        ) + seq![TokenView::Comma] + tokens_of(*t.right->0, false) + seq![TokenView::Close] + (
        name_tokens(t) + length_tokens(t, is_root)),
        t.left is None ==> tokens_of(t, is_root) == name_tokens(t) + length_tokens(t, is_root),
{
    let labels = name_tokens(t) + length_tokens(t, is_root);
    match (t.left, t.right) {
        (Some(l), Some(r)) => {
            let group = seq![TokenView::Open] + tokens_of(*l, false) + seq![TokenView::Comma]
                + tokens_of(*r, false) + seq![TokenView::Close];
            assert(group + name_tokens(t) + length_tokens(t, is_root) =~= group + labels);
        },
        _ => {
            assert(Seq::<TokenView>::empty() + name_tokens(t) + length_tokens(t, is_root)
                =~= labels);
        },
    }
}

/// A subtree that was written is read again as it was: where the text of
/// a plain tree stands at `i`, and what follows it ends a subtree, the
/// subtree at `i` has the tokens of that tree and ends where the text ends.
pub proof fn lemma_subtree_is_read(s: Seq<u8>, i: int, t: NodeView, is_root: bool)
    requires
        t.is_plain(),
        holds(s, i, subtree_text(t, is_root)),
        ends_at(s, i + subtree_text(t, is_root).len()),
    ensures
        subtree_at(s, i) == Ok::<(Seq<TokenView>, int), int>(
            (tokens_of(t, is_root), i + subtree_text(t, is_root).len()),
        ),
    decreases t,
{
    lemma_tokens_of(t, is_root);
    if t.left is Some {
        let l = *t.left->0;
        let r = *t.right->0;
        lemma_children_stand(s, i, t, is_root);
        let j = i + 1 + subtree_text(l, false).len();
        let k = j + 1 + subtree_text(r, false).len();
        lemma_subtree_is_read(s, i + 1, l, false);
        lemma_subtree_is_read(s, j + 1, r, false);
        lemma_label_is_read(s, k + 1, t, is_root);
        lemma_fork_is_read(
            s,
            i,
            tokens_of(l, false),
            j,
            tokens_of(r, false),
            k,
            name_tokens(t) + length_tokens(t, is_root),
            i + subtree_text(t, is_root).len(),
        );
    } else {
        lemma_leaf_is_read(s, i, t, is_root);
    }
}

/// `part` stands in `ts` from `i` on.
pub open spec fn holds_tokens(ts: Seq<TokenView>, i: int, part: Seq<TokenView>) -> bool {
    &&& 0 <= i
    &&& i + part.len() <= ts.len()
    &&& forall|k: int| 0 <= k < part.len() ==> ts[i + k] == #[trigger] part[k]
}

/// The label that is built from the tokens of a node's label is that
/// node's label.
pub proof fn lemma_label_is_built(
    ts: Seq<TokenView>,
    i: int,
    t: NodeView,
    is_root: bool,
    left: Option<Box<NodeView>>,
    right: Option<Box<NodeView>>,
)
    requires
        t.is_plain(),
        holds_tokens(ts, i, name_tokens(t) + length_tokens(t, is_root)),
        tokens_end_at(ts, i + (name_tokens(t) + length_tokens(t, is_root)).len()),
    ensures
        labelled(ts, i, left, right) == (
            NodeView {
                name: t.name,
                branch_length: t.branch_length,
                depth: None,
                left: left,
                right: right,
            },
            i + (name_tokens(t) + length_tokens(t, is_root)).len(),
        ),
{
    let part = name_tokens(t) + length_tokens(t, is_root);
    let names = name_tokens(t);
    let lengths = length_tokens(t, is_root);
    if names.len() > 0 {
        assert(part[0] == names[0]);
        assert(ts[i + 0] == part[0]);
    } else {
        assert(t.name =~= Seq::<u8>::empty());
        if lengths.len() > 0 {
            assert(part[0] == lengths[0]);
            assert(ts[i + 0] == part[0]);
        }
    }
    let j = i + names.len();
    if lengths.len() > 0 {
        assert(part[names.len() as int] == lengths[0]);
        assert(ts[i + names.len()] == part[names.len() as int]);
    }
}

/// A tree is built again from its tokens: where the tokens of a plain tree
/// stand at `i`, and what follows them ends a subtree, the tree that is
/// built at `i` is that tree, and it ends where its tokens end.
pub proof fn lemma_tree_is_built(ts: Seq<TokenView>, i: int, t: NodeView, is_root: bool)
    requires
        t.is_plain(),
        holds_tokens(ts, i, tokens_of(t, is_root)),
        tokens_end_at(ts, i + tokens_of(t, is_root).len()),
    ensures
        built_at(ts, i) == Ok::<(NodeView, int), StructureError>(
            (t, i + tokens_of(t, is_root).len()),
        ),
    decreases t,
{
    let all = tokens_of(t, is_root);
    let label = name_tokens(t) + length_tokens(t, is_root);
    match (t.left, t.right) {
        (Some(l), Some(r)) => {
            let kl = tokens_of(*l, false);
            let kr = tokens_of(*r, false);
            let nl = kl.len() as int;
            let nr = kr.len() as int;
            let group = seq![TokenView::Open] + kl + seq![TokenView::Comma] + kr + seq![
                TokenView::Close,
            ];
            assert(all =~= group + label);
            let j = i + 1 + nl;
            let k = j + 1 + nr;
            assert(ts[i] is Open) by {
                assert(all[0] == group[0]);
                assert(ts[i + 0] == all[0]);
            }
            assert(holds_tokens(ts, i + 1, kl)) by {
                assert forall|m: int| 0 <= m < kl.len() implies ts[i + 1 + m]
                    == #[trigger] kl[m] by {
                    assert(all[1 + m] == kl[m]);
                    assert(ts[i + (1 + m)] == all[1 + m]);
                }
            }
            assert(ts[j] is Comma) by {
                assert(all[1 + nl] == TokenView::Comma);
                assert(ts[i + (1 + nl)] == all[1 + nl]);
            }
            assert(holds_tokens(ts, j + 1, kr)) by {
                assert forall|m: int| 0 <= m < kr.len() implies ts[j + 1 + m]
                    == #[trigger] kr[m] by {
                    assert(all[2 + nl + m] == kr[m]);
                    assert(ts[i + (2 + nl + m)] == all[2 + nl + m]);
                }
            }
            assert(ts[k] is Close) by {
                assert(all[2 + nl + nr] == TokenView::Close);
                assert(ts[i + (2 + nl + nr)] == all[2 + nl + nr]);
            }
            assert(holds_tokens(ts, k + 1, label)) by {
                assert forall|m: int| 0 <= m < label.len() implies ts[k + 1 + m]
                    == #[trigger] label[m] by {
                    assert(all[3 + nl + nr + m] == label[m]);
                    assert(ts[i + (3 + nl + nr + m)] == all[3 + nl + nr + m]);
                }
            }
            lemma_tree_is_built(ts, i + 1, *l, false);
            lemma_tree_is_built(ts, j + 1, *r, false);
            lemma_label_is_built(ts, k + 1, t, is_root, Some(Box::new(*l)), Some(Box::new(*r)));
            assert(t.left == Some(Box::new(*l)));
            assert(t.right == Some(Box::new(*r)));
        },
        _ => {
            assert(all =~= label);
            if all.len() > 0 {
                assert(ts[i + 0] == all[0]);
                if name_tokens(t).len() > 0 {
                    assert(all[0] == name_tokens(t)[0]);
                } else {
                    assert(all[0] == length_tokens(t, is_root)[0]);
                }
            }
            lemma_label_is_built(ts, i, t, is_root, None, None);
        },
    }
}

/// What is written of a plain tree is read as that tree again: its text has
/// the tokens of the tree, and from these the tree is built.
pub proof fn lemma_round_trip(t: NodeView)
    requires
        t.is_plain(),
    ensures
        tokens_of_text(tree_text(t)) == Ok::<Seq<TokenView>, int>(
            tokens_of(t, true).push(TokenView::End),
        ),
        tree_of_tokens(tokens_of(t, true).push(TokenView::End)) == Ok::<NodeView, StructureError>(
            t,
        ),
{
    let body = subtree_text(t, true);
    let s = tree_text(t);
    assert(holds(s, 0, body));
    lemma_subtree_is_read(s, 0, t, true);
    let body_tokens = tokens_of(t, true);
    let ts = body_tokens.push(TokenView::End);
    assert(holds_tokens(ts, 0, body_tokens));
    lemma_tree_is_built(ts, 0, t, true);
}

/// A token as the parser gives it: a name is not empty and holds name
/// bytes only, and a length can be held.
pub open spec fn is_read_token(token: TokenView) -> bool {
    match token {
        TokenView::Name(name) => name.len() > 0 && forall|k: int|
            0 <= k < name.len() ==> is_name_byte(#[trigger] name[k]),
        TokenView::Length(units) => units <= u64::MAX,
        _ => true,
    }
}

/// Every token of `ts` is as the parser gives it.
pub open spec fn are_read_tokens(ts: Seq<TokenView>) -> bool {
    forall|k: int| 0 <= k < ts.len() ==> is_read_token(#[trigger] ts[k])
}

/// Two sequences of read tokens, one behind the other, are read tokens.
pub proof fn lemma_read_tokens_add(a: Seq<TokenView>, b: Seq<TokenView>)
    requires
        are_read_tokens(a),
        are_read_tokens(b),
    ensures
        are_read_tokens(a + b),
{
    assert forall|k: int| 0 <= k < (a + b).len() implies is_read_token(#[trigger] (a + b)[k]) by {
        if k < a.len() {
            assert((a + b)[k] == a[k]);
        } else {
            assert((a + b)[k] == b[k - a.len()]);
        }
    }
}

/// The tokens of a label that was read are read tokens.
pub proof fn lemma_label_tokens(s: Seq<u8>, i: int)
    requires
        0 <= i,
    ensures
        label_at(s, i) matches Ok((ts, end)) ==> are_read_tokens(ts) && i <= end,
{
    lemma_name_bytes(s, i);
    let e = name_end(s, i);
    let name = s.subrange(i, e);
    if e > i {
        assert forall|k: int| 0 <= k < name.len() implies is_name_byte(#[trigger] name[k]) by {
            assert(name[k] == s[i + k]);
        }
        assert(is_read_token(TokenView::Name(name)));
    }
    match label_at(s, i) {
        Ok((ts, end)) => {
            lemma_digit_run(s, e + 1);
            assert forall|k: int| 0 <= k < ts.len() implies is_read_token(#[trigger] ts[k]) by {}
        },
        Err(_) => {},
    }
}

/// The tokens of a subtree that was read are read tokens.
pub proof fn lemma_subtree_tokens(s: Seq<u8>, i: int)
    requires
        0 <= i,
    ensures
        subtree_at(s, i) matches Ok((ts, end)) ==> are_read_tokens(ts) && i <= end,
    decreases s.len() - i, 0int,
{
    if i < s.len() && s[i] == OPEN {
        lemma_children_tokens(s, i + 1);
        match children_at(s, i + 1) {
            Ok((children, j)) => {
                lemma_label_tokens(s, j);
                match label_at(s, j) {
                    Ok((label, k)) => {
                        assert(are_read_tokens(seq![TokenView::Open]));
                        lemma_read_tokens_add(seq![TokenView::Open], children);
                        lemma_read_tokens_add(seq![TokenView::Open] + children, label);
                    },
                    Err(_) => {},
                }
            },
            Err(_) => {},
        }
    } else {
        lemma_label_tokens(s, i);
    }
}

/// The tokens of a group that was read are read tokens.
pub proof fn lemma_children_tokens(s: Seq<u8>, i: int)
    requires
        0 <= i,
    ensures
        children_at(s, i) matches Ok((ts, end)) ==> are_read_tokens(ts) && i <= end,
    decreases s.len() - i, 1int,
{
    lemma_subtree_tokens(s, i);
    match subtree_at(s, i) {
        Ok((first, j)) => {
            if i <= j < s.len() && s[j] == COMMA {
                lemma_children_tokens(s, j + 1);
                match children_at(s, j + 1) {
                    Ok((rest, k)) => {
                        assert(are_read_tokens(first.push(TokenView::Comma))) by {
                            lemma_read_tokens_add(first, seq![TokenView::Comma]);
                            assert(first.push(TokenView::Comma) =~= first + seq![TokenView::Comma]);
                        }
                        lemma_read_tokens_add(first.push(TokenView::Comma), rest);
                    },
                    Err(_) => {},
                }
            } else if 0 <= j < s.len() && s[j] == CLOSE {
                lemma_read_tokens_add(first, seq![TokenView::Close]);
                assert(first.push(TokenView::Close) =~= first + seq![TokenView::Close]);
            }
        },
        Err(_) => {},
    }
}

/// A tree that is built from read tokens is plain.
pub proof fn lemma_built_is_plain(ts: Seq<TokenView>, i: int)
    requires
        are_read_tokens(ts),
    ensures
        built_at(ts, i) matches Ok((tree, _)) ==> tree.is_plain(),
    decreases ts.len() - i,
{
    if 0 <= i < ts.len() && ts[i] is Open {
        lemma_built_is_plain(ts, i + 1);
        match built_at(ts, i + 1) {
            Ok((left, j)) => {
                if i < j < ts.len() {
                    lemma_built_is_plain(ts, j + 1);
                    match built_at(ts, j + 1) {
                        Ok((right, k)) => {
                            lemma_labelled_is_plain(
                                ts,
                                k + 1,
                                Some(Box::new(left)),
                                Some(Box::new(right)),
                            );
                        },
                        Err(_) => {},
                    }
                }
            },
            Err(_) => {},
        }
    } else {
        lemma_labelled_is_plain(ts, i, None, None);
    }
}

/// A node with a label of read tokens and plain children is plain.
pub proof fn lemma_labelled_is_plain(
    ts: Seq<TokenView>,
    i: int,
    left: Option<Box<NodeView>>,
    right: Option<Box<NodeView>>,
)
    requires
        are_read_tokens(ts),
        left is Some <==> right is Some,
        left matches Some(l) ==> l.is_plain(),
        right matches Some(r) ==> r.is_plain(),
    ensures
        labelled(ts, i, left, right).0.is_plain(),
{
    let t = labelled(ts, i, left, right).0;
    if 0 <= i < ts.len() {
        assert(is_read_token(ts[i]));
    }
    let j = if 0 <= i < ts.len() && ts[i] is Name {
        i + 1
    } else {
        i
    };
    if 0 <= j < ts.len() {
        assert(is_read_token(ts[j]));
    }
}

/// The tokens of a text are read tokens.
pub proof fn lemma_text_tokens(text: Seq<u8>)
    ensures
        tokens_of_text(text) matches Ok(ts) ==> are_read_tokens(ts),
{
    lemma_subtree_tokens(text, 0);
    match subtree_at(text, 0) {
        Ok((body, _)) => {
            lemma_read_tokens_add(body, seq![TokenView::End]);
            assert(body.push(TokenView::End) =~= body + seq![TokenView::End]);
        },
        Err(_) => {},
    }
}

/// A tree that is read from text is plain, and what is written of it is
/// read as the same tree again.
pub proof fn lemma_text_round_trip(text: Seq<u8>)
    requires
        tokens_of_text(text) is Ok,
        tree_of_tokens(tokens_of_text(text)->Ok_0) is Ok,
    ensures
        ({
            let tree = tree_of_tokens(tokens_of_text(text)->Ok_0)->Ok_0;
            &&& tree.is_plain()
            &&& tokens_of_text(tree_text(tree)) is Ok
            &&& tree_of_tokens(tokens_of_text(tree_text(tree))->Ok_0) == Ok::<
                NodeView,
                StructureError,
            >(tree)
        }),
{
    let ts = tokens_of_text(text)->Ok_0;
    lemma_text_tokens(text);
    lemma_built_is_plain(ts, 0);
    lemma_round_trip(tree_of_tokens(ts)->Ok_0);
}

} // verus!
