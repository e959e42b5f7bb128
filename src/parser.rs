//! The parser: rebuilds the heading hierarchy of a token stream as a tree.
use crate::scanner::{tokens_view, Token, TokenModel, TokenType};
use crate::scanner::{lemma_tokens_view_index, lemma_tokens_view_len, lemma_tokens_view_push};
use vstd::prelude::*;

verus! {

broadcast use {lemma_tokens_view_index, lemma_tokens_view_len, lemma_tokens_view_push};

/// One scope of the document: the root, or the body of one heading.
#[derive(Debug, PartialEq, Eq)]
pub struct Node {
    /// The tokens that belong to this scope directly, in source order.
    pub data: Vec<Token>,
    /// The headings nested in this scope, each under its title; no two
    /// share a title.
    pub children: Vec<(String, Node)>,
}

/// What a node is, in mathematical terms.
pub ghost struct NodeModel {
    pub data: Seq<TokenModel>,
    pub children: Seq<(Seq<char>, NodeModel)>,
}

/// The model of `n`, entry by entry.
pub open spec fn node_view(n: Node) -> NodeModel
    decreases n,
{
    NodeModel {
        data: tokens_view(n.data@),
        children: Seq::new(
            n.children@.len(),
            |i: int|
                if 0 <= i < n.children@.len() {
                    proof {
                        assert(decreases_to!(n.children => n.children[i]));
                    }
                    (n.children@[i].0@, node_view(n.children@[i].1))
                } else {
                    (Seq::empty(), NodeModel { data: Seq::empty(), children: Seq::empty() })
                },
        ),
    }
}

impl View for Node {
    type V = NodeModel;

    open spec fn view(&self) -> NodeModel {
        node_view(*self)
    }
}

// ---------------------------------------------------------------------------
// The model of parsing.
pub open spec fn is_heading(t: TokenModel) -> bool {
    t.kind == TokenType::Asterisk
}

/// Where the body of a heading of depth `depth` ends, looking from `j` on:
/// at the first heading marker of that same length, at the `EOF` token, or
/// at the end of the stream.
pub open spec fn body_end(s: Seq<TokenModel>, j: int, depth: nat) -> int
    decreases s.len() - j,
{
    if j < 0 || j >= s.len() {
        s.len() as int
    } else if s[j].kind == TokenType::EOF || (is_heading(s[j]) && s[j].text.len() == depth) {
        j
    } else {
        body_end(s, j + 1, depth)
    }
}

/// Where the run of tokens on line `line` that goes on at `j` ends.
pub open spec fn line_end(s: Seq<TokenModel>, j: int, line: int) -> int
    decreases s.len() - j,
{
    if 0 <= j < s.len() && s[j].line == line {
        line_end(s, j + 1, line)
    } else {
        j
    }
}

/// The text of the plain-string tokens of `ts`, run together.
pub open spec fn title_of(ts: Seq<TokenModel>) -> Seq<char>
    decreases ts.len(),
{
    if ts.len() == 0 {
        Seq::empty()
    } else {
        title_of(ts.drop_last()) + if ts.last().kind == TokenType::String {
            ts.last().text
        } else {
            Seq::empty()
        }
    }
}

/// `cs` with `c` in place of the entry with the same title, or with `c`
/// added at the end where there is none.
pub open spec fn upsert(
    cs: Seq<(Seq<char>, NodeModel)>,
    c: (Seq<char>, NodeModel),
) -> Seq<(Seq<char>, NodeModel)> {
    if exists|k: int| 0 <= k < cs.len() && cs[k].0 == c.0 {
        cs.update(choose|k: int| 0 <= k < cs.len() && cs[k].0 == c.0, c)
    } else {
        cs.push(c)
    }
}

/// The entries of `list` entered in order, a later one replacing an
/// earlier one with the same title.
pub open spec fn keep_last(list: Seq<(Seq<char>, NodeModel)>) -> Seq<(Seq<char>, NodeModel)>
    decreases list.len(),
{
    if list.len() == 0 {
        Seq::empty()
    } else {
        upsert(keep_last(list.drop_last()), list.last())
    }
}

pub open spec fn titles_unique(cs: Seq<(Seq<char>, NodeModel)>) -> bool {
    forall|a: int, b: int| 0 <= a < b < cs.len() ==> cs[a].0 != cs[b].0
}

/// The tokens and the headings of a scope, from position `i` of `s` on:
/// the tokens that belong to the scope itself, and each heading with its
/// title, in order of appearance.
pub open spec fn pieces_from(s: Seq<TokenModel>, i: int) -> (
    Seq<TokenModel>,
    Seq<(Seq<char>, NodeModel)>,
)
    decreases s.len() - i,
    via pieces_from_decreases
{
    if i < 0 || i >= s.len() {
        (Seq::empty(), Seq::empty())
    } else if is_heading(s[i]) {
        let b = body_end(s, i + 1, s[i].text.len());
        let body = s.subrange(i + 1, b);
        let h = line_end(body, 0, s[i].line);
        let head_line = seq![s[i]] + body.take(h);
        let sub = pieces_from(body.subrange(h, body.len() as int), 0);
        let child = NodeModel { data: head_line + sub.0, children: keep_last(sub.1) };
        let rest = pieces_from(s, b);
        (rest.0, seq![(title_of(head_line), child)] + rest.1)
    } else {
        let e = line_end(s, i, s[i].line);
        let rest = pieces_from(s, e);
        (s.subrange(i, e) + rest.0, rest.1)
    }
}

#[via_fn]
proof fn pieces_from_decreases(s: Seq<TokenModel>, i: int) {
    if 0 <= i < s.len() {
        lemma_body_end_bounds(s, i + 1, s[i].text.len());
        lemma_line_end_bounds(s, i, s[i].line);
        let b = body_end(s, i + 1, s[i].text.len());
        let body = s.subrange(i + 1, b);
        lemma_line_end_bounds(body, 0, s[i].line);
    }
}

/// The tree of a token stream.
pub open spec fn tree(s: Seq<TokenModel>) -> NodeModel {
    let p = pieces_from(s, 0);
    NodeModel { data: p.0, children: keep_last(p.1) }
}

pub proof fn lemma_body_end_bounds(s: Seq<TokenModel>, j: int, depth: nat)
    requires
        0 <= j <= s.len(),
    ensures
        j <= body_end(s, j, depth) <= s.len(),
    decreases s.len() - j,
{
    if j < s.len() {
        lemma_body_end_bounds(s, j + 1, depth);
    }
}

pub proof fn lemma_line_end_bounds(s: Seq<TokenModel>, j: int, line: int)
    requires
        0 <= j <= s.len(),
    ensures
        j <= line_end(s, j, line) <= s.len(),
        j < s.len() && s[j].line == line ==> j < line_end(s, j, line),
    decreases s.len() - j,
{
    if j < s.len() && s[j].line == line {
        lemma_line_end_bounds(s, j + 1, line);
    }
}

// ---------------------------------------------------------------------------
// The parser itself.
pub open spec fn children_view(cs: Seq<(String, Node)>) -> Seq<(Seq<char>, NodeModel)> {
    cs.map_values(|c: (String, Node)| (c.0@, c.1@))
}

pub broadcast proof fn lemma_children_view_index(cs: Seq<(String, Node)>, i: int)
    requires
        0 <= i < cs.len(),
    ensures
        #[trigger] children_view(cs)[i] == (cs[i].0@, cs[i].1@),
{
}

pub broadcast proof fn lemma_children_view_len(cs: Seq<(String, Node)>)
    ensures
        #[trigger] children_view(cs).len() == cs.len(),
{
}

/// The view of a node's children is the view of each entry.
pub proof fn lemma_node_children_view(n: Node)
    ensures
        n@.children == children_view(n.children@),
{
    broadcast use lemma_children_view_index;

    assert forall|i: int| 0 <= i < n.children.len() implies #[trigger] n@.children[i]
        == children_view(n.children@)[i] by {
        let c = n.children@[i];
        assert(n@.children[i] == (c.0@, c.1@));
    }
    assert(n@.children =~= children_view(n.children@));
}

/// Builds the tree of `source`. A heading marker of length L opens a scope
/// that runs to the next marker of length L (or the `EOF` token); the tokens
/// on the marker's line are the heading's own, the rest of the scope is
/// parsed into its children. Other tokens belong to the scope they stand in,
/// a line at a time.
pub fn parse(source: Vec<Token>) -> (r: Node)
    ensures
        r@ == tree(tokens_view(source@)),
        titles_unique(r@.children),
{
    to_dom(&source)
}

/// The tokens after `from - 1` up to the end of the body of a heading of
/// depth `length` that stands at `from - 1`.
fn till_next(token_list: &Vec<Token>, from: usize, length: usize) -> (r: Vec<Token>)
    requires
        from <= token_list.len(),
    ensures
        tokens_view(r@) == tokens_view(token_list@).subrange(
            from as int,
            body_end(tokens_view(token_list@), from as int, length as nat),
        ),
{
    let ghost s = tokens_view(token_list@);
    let mut tokens: Vec<Token> = Vec::new();
    let mut i: usize = from;
    while i < token_list.len()
        invariant_except_break
            body_end(s, i as int, length as nat) == body_end(s, from as int, length as nat),
        invariant
            from <= i <= token_list.len(),
            s == tokens_view(token_list@),
            tokens_view(tokens@) == s.subrange(from as int, i as int),
        ensures
            i == body_end(s, from as int, length as nat),
        decreases token_list.len() - i,
    {
        let t = &token_list[i];
        if t.token_type == TokenType::EOF || (t.token_type == TokenType::Asterisk
            && t.lexeme.as_str().unicode_len() == length) {
            break;
        }
        tokens.push(t.duplicate());
        i = i + 1;
        proof {
            assert(tokens_view(tokens@) =~= s.subrange(from as int, i as int));
        }
    }
    tokens
}

/// The text of the plain-string tokens of `ts`, run together.
fn title(ts: &Vec<Token>) -> (r: String)
    ensures
        r@ == title_of(tokens_view(ts@)),
{
    let mut out = String::new();
    let mut i: usize = 0;
    while i < ts.len()
        invariant
            i <= ts.len(),
            out@ == title_of(tokens_view(ts@).take(i as int)),
        decreases ts.len() - i,
    {
        proof {
            assert(tokens_view(ts@).take(i + 1).drop_last() =~= tokens_view(ts@).take(i as int));
        }
        if ts[i].token_type == TokenType::String {
            out.append(ts[i].lexeme.as_str());
        }
        i = i + 1;
    }
    proof {
        assert(tokens_view(ts@).take(ts.len() as int) =~= tokens_view(ts@));
    }
    out
}

/// Enters `c` into `children`, in place of the entry with the same title.
fn upsert_child(children: &mut Vec<(String, Node)>, c: (String, Node))
    requires
        titles_unique(children_view(old(children)@)),
    ensures
        children_view(final(children)@) == upsert(children_view(old(children)@), (c.0@, c.1@)),
        titles_unique(children_view(final(children)@)),
{
    broadcast use {lemma_children_view_index, lemma_children_view_len};

    let ghost cs = children_view(children@);
    let ghost entry = (c.0@, c.1@);
    let mut k: usize = 0;
    while k < children.len()
        invariant
            k <= children.len(),
            children@ == old(children)@,
            cs == children_view(old(children)@),
            titles_unique(cs),
            entry == (c.0@, c.1@),
            forall|j: int| 0 <= j < k ==> cs[j].0 != entry.0,
        decreases children.len() - k,
    {
        if children[k].0 == c.0 {
            proof {
                assert(cs[k as int].0 == entry.0);
                let w = choose|j: int| 0 <= j < cs.len() && cs[j].0 == entry.0;
                assert(w == k);
            }
            children.set(k, c);
            proof {
                assert(children_view(children@) =~= cs.update(k as int, entry));
                assert(titles_unique(children_view(children@)));
            }
            return;
        }
        k = k + 1;
    }
    children.push(c);
    proof {
        assert(children_view(children@) =~= cs.push(entry));
    }
}

fn to_dom(source: &Vec<Token>) -> (r: Node)
    ensures
        r@ == tree(tokens_view(source@)),
        titles_unique(r@.children),
    decreases source.len(),
{
    broadcast use {lemma_children_view_index, lemma_children_view_len};

    let ghost s = tokens_view(source@);
    let mut data: Vec<Token> = Vec::new();
    let mut headings: Vec<(String, Node)> = Vec::new();
    let mut i: usize = 0;
    while i < source.len()
        invariant
            i <= source.len(),
            s == tokens_view(source@),
            pieces_from(s, 0) == (
                tokens_view(data@) + pieces_from(s, i as int).0,
                children_view(headings@) + pieces_from(s, i as int).1,
            ),
        decreases source.len() - i,
    {
        let token = &source[i];
        if token.token_type == TokenType::Asterisk {
            let depth = token.lexeme.as_str().unicode_len();
            let inner = till_next(source, i + 1, depth);
            proof {
                lemma_body_end_bounds(s, i + 1, depth as nat);
            }
            let mut head_line: Vec<Token> = Vec::new();
            head_line.push(token.duplicate());
            let mut z: usize = 0;
            while z < inner.len() && inner[z].line == token.line
                invariant
                    z <= inner.len(),
                    line_end(tokens_view(inner@), z as int, token.line as int) == line_end(
                        tokens_view(inner@),
                        0,
                        token.line as int,
                    ),
                    tokens_view(head_line@) == seq![token@] + tokens_view(inner@).take(z as int),
                decreases inner.len() - z,
            {
                head_line.push(inner[z].duplicate());
                z = z + 1;
                proof {
                    assert(tokens_view(head_line@) =~= seq![token@] + tokens_view(inner@).take(
                        z as int,
                    ));
                }
            }
            let mut right: Vec<Token> = Vec::new();
            let mut y: usize = z;
            while y < inner.len()
                invariant
                    z <= y <= inner.len(),
                    tokens_view(right@) == tokens_view(inner@).subrange(z as int, y as int),
                decreases inner.len() - y,
            {
                right.push(inner[y].duplicate());
                y = y + 1;
                proof {
                    assert(tokens_view(right@) =~= tokens_view(inner@).subrange(z as int, y as int));
                }
            }
            let sub = to_dom(&right);
            let name = title(&head_line);
            let mut own = head_line;
            let mut rest_data = sub.data;
            let ghost own_before = tokens_view(own@);
            own.append(&mut rest_data);
            proof {
                assert(tokens_view(own@) =~= own_before + sub@.data);
            }
            let child = Node { data: own, children: sub.children };
            let ghost entry = (name@, child@);
            let ghost old_headings = headings@;
            headings.push((name, child));
            proof {
                assert(children_view(headings@) =~= children_view(old_headings) + seq![entry]);
            }
            i = i + 1 + inner.len();
        } else {
            let ghost old_data = tokens_view(data@);
            let line = token.line;
            let mut z: usize = i;
            while z < source.len() && source[z].line == line
                invariant
                    i < source.len(),
                    i <= z <= source.len(),
                    s == tokens_view(source@),
                    line_end(s, z as int, line as int) == line_end(s, i as int, line as int),
                    tokens_view(data@) == old_data + s.subrange(i as int, z as int),
                decreases source.len() - z,
            {
                data.push(source[z].duplicate());
                z = z + 1;
                proof {
                    assert(tokens_view(data@) =~= old_data + s.subrange(i as int, z as int));
                }
            }
            i = z;
        }
    }
    proof {
        assert(pieces_from(s, i as int) == (Seq::<TokenModel>::empty(), Seq::<(Seq<char>, NodeModel)>::empty()));
        assert(tokens_view(data@) =~= tokens_view(data@) + Seq::<TokenModel>::empty());
        assert(children_view(headings@) =~= children_view(headings@) + Seq::<(Seq<char>, NodeModel)>::empty());
    }
    let ghost list = children_view(headings@);
    let mut children: Vec<(String, Node)> = Vec::new();
    let mut k: usize = 0;
    proof {
        assert(children_view(children@) =~= keep_last(list.take(0)));
        assert(children_view(headings@) =~= list.skip(0));
        assert(list.len() == headings.len());
    }
    while headings.len() > 0
        invariant
            k <= list.len() <= usize::MAX,
            tokens_view(data@) == pieces_from(s, 0).0,
            list == pieces_from(s, 0).1,
            children_view(headings@) == list.skip(k as int),
            children_view(children@) == keep_last(list.take(k as int)),
            titles_unique(children_view(children@)),
        decreases headings.len(),
    {
        let ghost before = headings@;
        proof {
            assert(children_view(before).len() == before.len());
            assert(list.skip(k as int).len() == list.len() - k);
        }
        let c = headings.remove(0);
        proof {
            assert(headings@ =~= before.subrange(1, before.len() as int));
            assert forall|j: int| 0 <= j < headings.len() implies #[trigger] children_view(headings@)[j] == list.skip(k + 1)[j] by {
                assert(headings@[j] == before[j + 1]);
                assert(children_view(before)[j + 1] == list.skip(k as int)[j + 1]);
            }
            assert(children_view(before)[0] == (c.0@, c.1@));
            assert(list.take(k + 1).drop_last() =~= list.take(k as int));
            assert(children_view(headings@) =~= list.skip(k + 1));
        }
        upsert_child(&mut children, c);
        k = k + 1;
    }
    proof {
        assert(list.take(k as int) =~= list);
    }
    let r = Node { data, children };
    proof {
        lemma_node_children_view(r);
    }
    r
}

// ---------------------------------------------------------------------------
// How deep the tree goes, and where a scope closes.
/// The lengths of the heading markers in `s`.
pub open spec fn marker_lengths(s: Seq<TokenModel>) -> Set<nat>
    decreases s.len(),
{
    if s.len() == 0 {
        Set::empty()
    } else if is_heading(s.last()) {
        marker_lengths(s.drop_last()).insert(s.last().text.len())
    } else {
        marker_lengths(s.drop_last())
    }
}

/// No path of nested headings below `n` is longer than `d`.
pub open spec fn depth_within(n: NodeModel, d: nat) -> bool
    decreases d,
{
    if d == 0 {
        n.children.len() == 0
    } else {
        forall|k: int|
            0 <= k < n.children.len() ==> depth_within(#[trigger] n.children[k].1, (d - 1) as nat)
    }
}

proof fn lemma_marker_lengths(s: Seq<TokenModel>)
    ensures
        marker_lengths(s).finite(),
        forall|n: nat|
            marker_lengths(s).contains(n) <==> exists|i: int|
                0 <= i < s.len() && is_heading(#[trigger] s[i]) && s[i].text.len() == n,
    decreases s.len(),
{
    if s.len() > 0 {
        let t = s.drop_last();
        lemma_marker_lengths(t);
        assert forall|n: nat|
            marker_lengths(s).contains(n) <==> exists|i: int|
                0 <= i < s.len() && is_heading(#[trigger] s[i]) && s[i].text.len() == n by {
            if marker_lengths(t).contains(n) {
                let i = choose|i: int| 0 <= i < t.len() && is_heading(#[trigger] t[i]) && t[i].text.len() == n;
                assert(s[i] == t[i]);
            }
            if exists|i: int| 0 <= i < s.len() && is_heading(#[trigger] s[i]) && s[i].text.len() == n {
                let i = choose|i: int| 0 <= i < s.len() && is_heading(#[trigger] s[i]) && s[i].text.len() == n;
                if i < t.len() {
                    assert(t[i] == s[i]);
                }
            }
        }
    }
}

/// The marker lengths of a stretch of `s` are among those of `s`.
proof fn lemma_marker_lengths_subrange(s: Seq<TokenModel>, a: int, b: int)
    requires
        0 <= a <= b <= s.len(),
    ensures
        marker_lengths(s.subrange(a, b)).subset_of(marker_lengths(s)),
        marker_lengths(s.subrange(a, b)).len() <= marker_lengths(s).len(),
{
    let t = s.subrange(a, b);
    lemma_marker_lengths(s);
    lemma_marker_lengths(t);
    assert forall|n: nat| marker_lengths(t).contains(n) implies marker_lengths(s).contains(n) by {
        let i = choose|i: int| 0 <= i < t.len() && is_heading(#[trigger] t[i]) && t[i].text.len() == n;
        assert(s[a + i] == t[i]);
    }
    vstd::set_lib::lemma_len_subset(marker_lengths(t), marker_lengths(s));
}

proof fn lemma_depth_within_mono(n: NodeModel, d: nat, e: nat)
    requires
        depth_within(n, d),
        d <= e,
    ensures
        depth_within(n, e),
    decreases e,
{
    if d > 0 {
        assert forall|k: int| 0 <= k < n.children.len() implies depth_within(
            #[trigger] n.children[k].1,
            (e - 1) as nat,
        ) by {
            lemma_depth_within_mono(n.children[k].1, (d - 1) as nat, (e - 1) as nat);
        }
    }
}

proof fn lemma_upsert_from(cs: Seq<(Seq<char>, NodeModel)>, c: (Seq<char>, NodeModel))
    ensures
        forall|k: int|
            0 <= k < upsert(cs, c).len() ==> #[trigger] upsert(cs, c)[k] == c || exists|j: int|
                0 <= j < cs.len() && upsert(cs, c)[k] == cs[j],
{
    assert forall|k: int| 0 <= k < upsert(cs, c).len() implies #[trigger] upsert(cs, c)[k] == c
        || exists|j: int| 0 <= j < cs.len() && upsert(cs, c)[k] == cs[j] by {
        if upsert(cs, c)[k] != c {
            assert(upsert(cs, c)[k] == cs[k]);
        }
    }
}

/// Every entry that `keep_last` keeps is an entry of the list.
proof fn lemma_keep_last_from(list: Seq<(Seq<char>, NodeModel)>)
    ensures
        forall|k: int|
            0 <= k < keep_last(list).len() ==> exists|j: int|
                0 <= j < list.len() && #[trigger] keep_last(list)[k] == list[j],
    decreases list.len(),
{
    if list.len() > 0 {
        let init = list.drop_last();
        lemma_keep_last_from(init);
        lemma_upsert_from(keep_last(init), list.last());
        assert forall|k: int| 0 <= k < keep_last(list).len() implies exists|j: int|
            0 <= j < list.len() && #[trigger] keep_last(list)[k] == list[j] by {
            if keep_last(list)[k] == list.last() {
                assert(list[list.len() - 1] == list.last());
            } else {
                let j = choose|j: int|
                    0 <= j < keep_last(init).len() && keep_last(list)[k] == keep_last(init)[j];
                let j2 = choose|j2: int| 0 <= j2 < init.len() && #[trigger] keep_last(init)[j] == init[j2];
                assert(list[j2] == init[j2]);
            }
        }
    }
}

/// A node whose children are drawn from `list` is as deep as the deepest
/// entry of `list` allows.
proof fn lemma_children_depth(list: Seq<(Seq<char>, NodeModel)>, data: Seq<TokenModel>, d: nat)
    requires
        list.len() > 0 ==> d >= 1,
        forall|k: int| 0 <= k < list.len() ==> depth_within(#[trigger] list[k].1, (d - 1) as nat),
    ensures
        depth_within(NodeModel { data, children: keep_last(list) }, d),
{
    lemma_keep_last_from(list);
    let n = NodeModel { data, children: keep_last(list) };
    if d == 0 {
        if keep_last(list).len() > 0 {
            let first = keep_last(list)[0];
            let j = choose|j: int| 0 <= j < list.len() && #[trigger] keep_last(list)[0] == list[j];
            assert(list.len() > 0);
        }
    } else {
        assert forall|k: int| 0 <= k < n.children.len() implies depth_within(
            #[trigger] n.children[k].1,
            (d - 1) as nat,
        ) by {
            let j = choose|j: int| 0 <= j < list.len() && #[trigger] keep_last(list)[k] == list[j];
            assert(depth_within(list[j].1, (d - 1) as nat));
        }
    }
}

/// Before `body_end`, no token is `EOF` or a marker of the same length.
proof fn lemma_body_end_skips(s: Seq<TokenModel>, j: int, depth: nat)
    requires
        0 <= j <= s.len(),
    ensures
        forall|k: int|
            j <= k < body_end(s, j, depth) ==> (#[trigger] s[k]).kind != TokenType::EOF && !(
            is_heading(s[k]) && s[k].text.len() == depth),
    decreases s.len() - j,
{
    if j < s.len() {
        lemma_body_end_skips(s, j + 1, depth);
    }
}

proof fn lemma_pieces_depth(s: Seq<TokenModel>, i: int)
    requires
        0 <= i <= s.len(),
    ensures
        pieces_from(s, i).1.len() > 0 ==> marker_lengths(s.subrange(i, s.len() as int)).len() >= 1,
        forall|k: int|
            0 <= k < pieces_from(s, i).1.len() ==> depth_within(
                #[trigger] pieces_from(s, i).1[k].1,
                (marker_lengths(s.subrange(i, s.len() as int)).len() - 1) as nat,
            ),
    decreases s.len() - i,
{
    let tail = s.subrange(i, s.len() as int);
    let m = marker_lengths(tail).len();
    if i < s.len() {
        lemma_body_end_bounds(s, i + 1, s[i].text.len());
        lemma_line_end_bounds(s, i, s[i].line);
        lemma_line_end_bounds(s.subrange(i + 1, body_end(s, i + 1, s[i].text.len())), 0, s[i].line);
        lemma_marker_lengths(tail);
        if is_heading(s[i]) {
            let depth = s[i].text.len();
            let b = body_end(s, i + 1, depth);
            let body = s.subrange(i + 1, b);
            let h = line_end(body, 0, s[i].line);
            let inner = body.subrange(h, body.len() as int);
            let head_line = seq![s[i]] + body.take(h);
            let sub = pieces_from(inner, 0);
            let child = NodeModel { data: head_line + sub.0, children: keep_last(sub.1) };
            lemma_pieces_depth(inner, 0);
            lemma_pieces_depth(s, b);
            assert(inner.subrange(0, inner.len() as int) =~= inner);
            // The markers inside the body leave out its own length.
            let mi = marker_lengths(inner);
            lemma_marker_lengths(inner);
            lemma_body_end_skips(s, i + 1, depth);
            assert(tail[0] == s[i]);
            assert(marker_lengths(tail).contains(depth));
            assert forall|n: nat| mi.contains(n) implies marker_lengths(tail).remove(depth).contains(n) by {
                let q = choose|q: int| 0 <= q < inner.len() && is_heading(#[trigger] inner[q]) && inner[q].text.len() == n;
                assert(inner[q] == s[i + 1 + h + q]);
                assert(tail[1 + h + q] == s[i + 1 + h + q]);
            }
            vstd::set_lib::lemma_len_subset(mi, marker_lengths(tail).remove(depth));
            let mc = mi.len();
            if sub.1.len() > 0 {
                assert(pieces_from(inner, 0).1[0].1 == sub.1[0].1);
            }
            assert forall|k: int| 0 <= k < sub.1.len() implies depth_within(
                #[trigger] sub.1[k].1,
                (mc - 1) as nat,
            ) by {
                assert(pieces_from(inner, 0).1[k].1 == sub.1[k].1);
            }
            lemma_children_depth(sub.1, head_line + sub.0, mc);
            lemma_depth_within_mono(child, mc, (m - 1) as nat);
            // The headings after the body.
            lemma_marker_lengths_subrange(tail, b - i, tail.len() as int);
            assert(tail.subrange(b - i, tail.len() as int) =~= s.subrange(b, s.len() as int));
            let rest = pieces_from(s, b);
            assert(pieces_from(s, i).1[0].1 == child);
            assert forall|k: int| 0 <= k < pieces_from(s, i).1.len() implies depth_within(
                #[trigger] pieces_from(s, i).1[k].1,
                (m - 1) as nat,
            ) by {
                if k > 0 {
                    assert(pieces_from(s, i).1[k] == rest.1[k - 1]);
                    let mr = marker_lengths(s.subrange(b, s.len() as int)).len();
                    lemma_depth_within_mono(rest.1[k - 1].1, (mr - 1) as nat, (m - 1) as nat);
                }
            }
        } else {
            let e = line_end(s, i, s[i].line);
            lemma_pieces_depth(s, e);
            lemma_marker_lengths_subrange(tail, e - i, tail.len() as int);
            assert(tail.subrange(e - i, tail.len() as int) =~= s.subrange(e, s.len() as int));
            let mr = marker_lengths(s.subrange(e, s.len() as int)).len();
            assert(pieces_from(s, i).1 == pieces_from(s, e).1);
            assert forall|k: int| 0 <= k < pieces_from(s, i).1.len() implies depth_within(
                #[trigger] pieces_from(s, i).1[k].1,
                (m - 1) as nat,
            ) by {
                lemma_depth_within_mono(pieces_from(s, e).1[k].1, (mr - 1) as nat, (m - 1) as nat);
            }
        }
    }
}

/// The tree of any token stream is no deeper than the number of distinct
/// heading-marker lengths in the stream.
pub proof fn lemma_parse_depth(s: Seq<TokenModel>)
    ensures
        depth_within(tree(s), marker_lengths(s).len()),
{
    lemma_pieces_depth(s, 0);
    assert(s.subrange(0, s.len() as int) =~= s);
    let p = pieces_from(s, 0);
    let m = marker_lengths(s).len();
    if p.1.len() > 0 {
        assert(pieces_from(s, 0).1[0].1 == p.1[0].1);
    }
    assert forall|k: int| 0 <= k < p.1.len() implies depth_within(
        #[trigger] p.1[k].1,
        (m - 1) as nat,
    ) by {
        assert(pieces_from(s, 0).1[k].1 == p.1[k].1);
    }
    lemma_children_depth(p.1, p.0, m);
}

/// A heading of length L that the parse meets at `i` closes its scope
/// exactly at the first marker of length L after it (at `j`), where no `EOF`
/// token comes first: the heading's entry is built from the tokens strictly
/// between the two markers, and the marker at `j` opens the next sibling.
pub proof fn lemma_scope_closes_at_same_depth(s: Seq<TokenModel>, i: int, j: int)
    requires
        0 <= i < j < s.len(),
        is_heading(s[i]),
        is_heading(s[j]),
        s[j].text.len() == s[i].text.len(),
        forall|k: int|
            i < k < j ==> (#[trigger] s[k]).kind != TokenType::EOF && !(is_heading(s[k])
                && s[k].text.len() == s[i].text.len()),
    ensures
        body_end(s, i + 1, s[i].text.len()) == j,
        ({
            let body = s.subrange(i + 1, j);
            let h = line_end(body, 0, s[i].line);
            let head_line = seq![s[i]] + body.take(h);
            let sub = pieces_from(body.subrange(h, body.len() as int), 0);
            pieces_from(s, i) == (
                pieces_from(s, j).0,
                seq![(title_of(head_line), NodeModel { data: head_line + sub.0, children: keep_last(sub.1) })]
                    + pieces_from(s, j).1,
            )
        }),
        pieces_from(s, j).1.len() >= 1,
        pieces_from(s, j).1[0].1.data[0] == s[j],
{
    lemma_scope_closes_from(s, i + 1, j, s[i].text.len());
    let after = pieces_from(s, j);
    let next_body = s.subrange(j + 1, body_end(s, j + 1, s[j].text.len()));
    let next_line = seq![s[j]] + next_body.take(line_end(next_body, 0, s[j].line));
    assert(next_line[0] == s[j]);
}

proof fn lemma_scope_closes_from(s: Seq<TokenModel>, a: int, j: int, depth: nat)
    requires
        0 <= a <= j < s.len(),
        is_heading(s[j]),
        s[j].text.len() == depth,
        forall|k: int|
            a <= k < j ==> (#[trigger] s[k]).kind != TokenType::EOF && !(is_heading(s[k])
                && s[k].text.len() == depth),
    ensures
        body_end(s, a, depth) == j,
    decreases j - a,
{
    if a < j {
        lemma_scope_closes_from(s, a + 1, j, depth);
    }
}

} // verus!
