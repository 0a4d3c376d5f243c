use vstd::prelude::*;
use std::collections::VecDeque;
use vstd::string::*;

verus! {

/// A node of a Huffman tree: a leaf holds one symbol, an internal node owns
/// exactly two children. Each node carries a frequency.
pub enum HuffmanNode {
    Leaf { freq: usize, ch: char },
    Internal { freq: usize, left: Box<HuffmanNode>, right: Box<HuffmanNode> },
}

impl HuffmanNode {
    /// The frequency carried by the node.
    pub open spec fn spec_freq(&self) -> usize {
        match self {
            HuffmanNode::Leaf { freq, .. } => *freq,
            HuffmanNode::Internal { freq, .. } => *freq,
        }
    }

    /// The frequency carried by the node.
    #[verifier::when_used_as_spec(spec_freq)]
    pub fn freq(&self) -> (r: usize)
        ensures
            r == self.spec_freq(),
    {
        match self {
            HuffmanNode::Leaf { freq, .. } => *freq,
            HuffmanNode::Internal { freq, .. } => *freq,
        }
    }
}

/// Whether `n` is a leaf holding symbol `c`.
pub open spec fn is_leaf_of(n: HuffmanNode, c: char) -> bool {
    match n {
        HuffmanNode::Leaf { ch, .. } => ch == c,
        _ => false,
    }
}

/// The first position in `q` of a leaf holding `c`, or `q.len()` if there is none.
pub open spec fn leaf_pos(q: Seq<HuffmanNode>, c: char) -> int
    decreases q.len(),
{
    if q.len() == 0 {
        0
    } else if is_leaf_of(q[0], c) {
        0
    } else {
        1 + leaf_pos(q.drop_first(), c)
    }
}

/// The frequency table after one more occurrence of `c`: its leaf counts one
/// more, or a new leaf with count 1 goes at the end.
pub open spec fn add_occurrence(q: Seq<HuffmanNode>, c: char) -> Seq<HuffmanNode> {
    let i = leaf_pos(q, c);
    if i < q.len() {
        q.update(i, HuffmanNode::Leaf { freq: (q[i].spec_freq() + 1) as usize, ch: c })
    } else {
        q.push(HuffmanNode::Leaf { freq: 1, ch: c })
    }
}

/// The frequency table of a text: one leaf per distinct symbol, in order of
/// first appearance, each with the symbol's number of occurrences.
pub open spec fn frequency_table(t: Seq<char>) -> Seq<HuffmanNode>
    decreases t.len(),
{
    if t.len() == 0 {
        Seq::empty()
    } else {
        add_occurrence(frequency_table(t.drop_last()), t.last())
    }
}

/// Number of occurrences of `c` in `t`.
pub open spec fn occurrences(t: Seq<char>, c: char) -> nat
    decreases t.len(),
{
    if t.len() == 0 {
        0
    } else {
        occurrences(t.drop_last(), c) + if t.last() == c { 1nat } else { 0nat }
    }
}

/// Sum of the frequencies of the nodes of a queue.
pub open spec fn freq_sum(q: Seq<HuffmanNode>) -> int
    decreases q.len(),
{
    if q.len() == 0 {
        0
    } else {
        freq_sum(q.drop_last()) + q.last().spec_freq()
    }
}

pub(crate) proof fn lemma_leaf_pos(q: Seq<HuffmanNode>, c: char)
    ensures
        0 <= leaf_pos(q, c) <= q.len(),
        leaf_pos(q, c) < q.len() ==> is_leaf_of(q[leaf_pos(q, c)], c),
        forall|j: int| 0 <= j < leaf_pos(q, c) ==> !is_leaf_of(#[trigger] q[j], c),
    decreases q.len(),
{
    if q.len() > 0 && !is_leaf_of(q[0], c) {
        lemma_leaf_pos(q.drop_first(), c);
        assert forall|j: int| 0 <= j < leaf_pos(q, c) implies !is_leaf_of(#[trigger] q[j], c) by {
            if j > 0 {
                assert(q[j] == q.drop_first()[j - 1]);
            }
        }
    }
}

proof fn lemma_leaf_pos_unique(q: Seq<HuffmanNode>, c: char, i: int)
    requires
        0 <= i <= q.len(),
        i < q.len() ==> is_leaf_of(q[i], c),
        forall|j: int| 0 <= j < i ==> !is_leaf_of(#[trigger] q[j], c),
    ensures
        leaf_pos(q, c) == i,
{
    lemma_leaf_pos(q, c);
}

proof fn lemma_freq_sum_nonneg(q: Seq<HuffmanNode>)
    ensures
        freq_sum(q) >= 0,
    decreases q.len(),
{
    if q.len() > 0 {
        lemma_freq_sum_nonneg(q.drop_last());
    }
}

proof fn lemma_freq_sum_push(q: Seq<HuffmanNode>, n: HuffmanNode)
    ensures
        freq_sum(q.push(n)) == freq_sum(q) + n.spec_freq(),
{
    assert(q.push(n).drop_last() =~= q);
}

proof fn lemma_freq_sum_update(q: Seq<HuffmanNode>, i: int, n: HuffmanNode)
    requires
        0 <= i < q.len(),
    ensures
        freq_sum(q.update(i, n)) == freq_sum(q) - q[i].spec_freq() + n.spec_freq(),
    decreases q.len(),
{
    if i < q.len() - 1 {
        assert(q.update(i, n).drop_last() =~= q.drop_last().update(i, n));
        lemma_freq_sum_update(q.drop_last(), i, n);
    } else {
        assert(q.update(i, n).drop_last() =~= q.drop_last());
    }
}

proof fn lemma_freq_sum_remove(q: Seq<HuffmanNode>, i: int)
    requires
        0 <= i < q.len(),
    ensures
        freq_sum(q.remove(i)) == freq_sum(q) - q[i].spec_freq(),
    decreases q.len(),
{
    if i < q.len() - 1 {
        assert(q.remove(i).drop_last() =~= q.drop_last().remove(i));
        lemma_freq_sum_remove(q.drop_last(), i);
    } else {
        assert(q.remove(i) =~= q.drop_last());
    }
}

/// Collects the symbols of a text, in order.
fn chars_of(s: &str) -> (r: Vec<char>)
    ensures
        r@ == s@,
{
    let mut v: Vec<char> = Vec::new();
    for c in it: s.chars()
        invariant
            v@ == it.seq().take(it.index() as int),
            it.seq() == s@,
    {
        v.push(c);
    }
    v
}

/// Counts the symbols of a text: one leaf per distinct symbol, in order of
/// first appearance, with its number of occurrences as frequency.
pub fn get_frequency_map(contents: &str) -> (r: Vec<HuffmanNode>)
    ensures
        r@ == frequency_table(contents@),
        freq_sum(r@) == contents@.len(),
        contents@.len() <= usize::MAX,
{
    let text = chars_of(contents);
    let mut table: Vec<HuffmanNode> = Vec::new();
    let mut k: usize = 0;
    while k < text.len()
        invariant
            text@ == contents@,
            0 <= k <= text.len(),
            table@ == frequency_table(text@.take(k as int)),
            freq_sum(table@) == k,
        decreases text.len() - k,
    {
        let c = text[k];
        let mut i: usize = 0;
        while i < table.len()
            invariant
                0 <= i <= table.len(),
                forall|j: int| 0 <= j < i ==> !is_leaf_of(#[trigger] table@[j], c),
            ensures
                0 <= i <= table.len(),
                i < table.len() ==> is_leaf_of(table@[i as int], c),
                forall|j: int| 0 <= j < i ==> !is_leaf_of(#[trigger] table@[j], c),
            decreases table.len() - i,
        {
            let hit = match &table[i] {
                HuffmanNode::Leaf { ch, .. } => *ch == c,
                _ => false,
            };
            if hit {
                break;
            }
            i = i + 1;
        }
        proof {
            lemma_leaf_pos_unique(table@, c, i as int);
            assert(text@.take(k + 1).drop_last() =~= text@.take(k as int));
            lemma_freq_sum_nonneg(table@);
        }
        if i < table.len() {
            let f = table[i].freq();
            proof {
                lemma_freq_sum_update(table@, i as int, HuffmanNode::Leaf { freq: (f + 1) as usize, ch: c });
                lemma_freq_sum_remove(table@, i as int);
                lemma_freq_sum_nonneg(table@.remove(i as int));
            }
            table.set(i, HuffmanNode::Leaf { freq: f + 1, ch: c });
        } else {
            let ghost before = table@;
            let leaf = HuffmanNode::Leaf { freq: 1, ch: c };
            table.push(leaf);
            proof {
                lemma_freq_sum_push(before, leaf);
            }
        }
        k = k + 1;
    }
    proof {
        assert(text@.take(k as int) =~= text@);
    }
    table
}

/// Position of the first node of least frequency in a non-empty queue: on
/// equal frequencies the earlier node, which was inserted first, wins.
pub open spec fn min_at(q: Seq<HuffmanNode>) -> int
    decreases q.len(),
{
    if q.len() <= 1 {
        0
    } else {
        let k = min_at(q.drop_last());
        if q.last().spec_freq() < q[k].spec_freq() {
            q.len() - 1
        } else {
            k
        }
    }
}

/// One greedy step: the node of least frequency and then the least of the
/// rest are taken out, and a parent with the first as left child and the
/// second as right child is appended.
pub open spec fn merge_step(q: Seq<HuffmanNode>) -> Seq<HuffmanNode> {
    let a = q[min_at(q)];
    let rest = q.remove(min_at(q));
    let b = rest[min_at(rest)];
    rest.remove(min_at(rest)).push(
        HuffmanNode::Internal {
            freq: (a.spec_freq() + b.spec_freq()) as usize,
            left: Box::new(a),
            right: Box::new(b),
        },
    )
}

/// The Huffman tree of a queue: none for an empty queue, the single node
/// of a queue of one, else the tree of the queue after one merge step.
pub open spec fn huffman_spec(q: Seq<HuffmanNode>) -> Option<HuffmanNode>
    decreases q.len(),
    via huffman_spec_decreases
{
    if q.len() == 0 {
        None
    } else if q.len() == 1 {
        Some(q[0])
    } else {
        huffman_spec(merge_step(q))
    }
}

#[via_fn]
proof fn huffman_spec_decreases(q: Seq<HuffmanNode>) {
    if q.len() > 1 {
        lemma_min_at(q);
        lemma_min_at(q.remove(min_at(q)));
    }
}

pub(crate) proof fn lemma_min_at(q: Seq<HuffmanNode>)
    requires
        q.len() > 0,
    ensures
        0 <= min_at(q) < q.len(),
    decreases q.len(),
{
    if q.len() > 1 {
        lemma_min_at(q.drop_last());
    }
}

/// Position of the first node of least frequency.
fn min_index(q: &Vec<HuffmanNode>) -> (r: usize)
    requires
        q.len() > 0,
    ensures
        r == min_at(q@),
        r < q.len(),
{
    let mut best: usize = 0;
    let mut i: usize = 1;
    while i < q.len()
        invariant
            1 <= i <= q.len(),
            best < i,
            best == min_at(q@.take(i as int)),
        decreases q.len() - i,
    {
        proof {
            assert(q@.take(i + 1).drop_last() =~= q@.take(i as int));
        }
        if q[i].freq() < q[best].freq() {
            best = i;
        }
        i = i + 1;
    }
    proof {
        assert(q@.take(i as int) =~= q@);
    }
    best
}

/// Builds the Huffman tree of a queue of nodes by merging the two nodes of
/// least frequency until one is left; an empty queue gives no tree.
pub fn build_tree(queue: Vec<HuffmanNode>) -> (r: Option<HuffmanNode>)
    requires
        freq_sum(queue@) <= usize::MAX,
    ensures
        r == huffman_spec(queue@),
{
    let mut q = queue;
    while q.len() > 1
        invariant
            huffman_spec(q@) == huffman_spec(queue@),
            freq_sum(q@) <= usize::MAX,
        decreases q.len(),
    {
        let ghost q0 = q@;
        let i = min_index(&q);
        let a = q.remove(i);
        let ghost q1 = q@;
        let j = min_index(&q);
        let b = q.remove(j);
        proof {
            lemma_freq_sum_remove(q0, i as int);
            lemma_freq_sum_remove(q1, j as int);
            lemma_freq_sum_nonneg(q@);
        }
        let parent = HuffmanNode::Internal {
            freq: a.freq() + b.freq(),
            left: Box::new(a),
            right: Box::new(b),
        };
        let ghost q2 = q@;
        q.push(parent);
        proof {
            lemma_freq_sum_push(q2, parent);
            assert(q@ == merge_step(q0));
        }
    }
    if q.len() == 0 {
        None
    } else {
        Some(q.remove(0))
    }
}

/// The codewords of the leaves under `n`, left to right, where `path` is the
/// path from the root to `n`: '0' for each step to a left child, '1' for a
/// step to a right child.
pub open spec fn leaf_codes(n: HuffmanNode, path: Seq<char>) -> Seq<(char, Seq<char>)>
    decreases n,
{
    match n {
        HuffmanNode::Leaf { ch, .. } => seq![(ch, path)],
        HuffmanNode::Internal { left, right, .. } => leaf_codes(*left, path.push('0'))
            + leaf_codes(*right, path.push('1')),
    }
}

/// The code table of an optional root: empty without a root; a lone leaf
/// gets the empty codeword.
pub open spec fn code_table(root: Option<HuffmanNode>) -> Seq<(char, Seq<char>)> {
    match root {
        Some(n) => leaf_codes(n, Seq::empty()),
        None => Seq::empty(),
    }
}

/// The entries of a code table with each codeword seen as a sequence.
pub open spec fn table_view(v: Seq<(char, String)>) -> Seq<(char, Seq<char>)> {
    v.map_values(|e: (char, String)| (e.0, e.1@))
}

/// Position of the first entry for `c` in a table, or its length if none.
pub open spec fn code_pos(t: Seq<(char, Seq<char>)>, c: char) -> int
    decreases t.len(),
{
    if t.len() == 0 {
        0
    } else if t[0].0 == c {
        0
    } else {
        1 + code_pos(t.drop_first(), c)
    }
}

/// The codeword of `c` in a table: that of its first entry.
pub open spec fn lookup(t: Seq<(char, Seq<char>)>, c: char) -> Option<Seq<char>> {
    if code_pos(t, c) < t.len() {
        Some(t[code_pos(t, c)].1)
    } else {
        None
    }
}

/// The encoding of a text: the concatenation of its symbols' codewords, or
/// none if some symbol has no codeword.
pub open spec fn encode_spec(t: Seq<(char, Seq<char>)>, text: Seq<char>) -> Option<Seq<char>>
    decreases text.len(),
{
    if text.len() == 0 {
        Some(Seq::empty())
    } else {
        match (encode_spec(t, text.drop_last()), lookup(t, text.last())) {
            (Some(a), Some(b)) => Some(a + b),
            _ => None,
        }
    }
}

/// `k` is the position of the first symbol of `text` without a codeword.
pub open spec fn first_unknown_at(t: Seq<(char, Seq<char>)>, text: Seq<char>, k: int) -> bool {
    &&& 0 <= k < text.len()
    &&& lookup(t, text[k]) is None
    &&& forall|j: int| 0 <= j < k ==> lookup(t, #[trigger] text[j]) is Some
}

/// The message of an encoding error for symbol `c`.
pub open spec fn unknown_symbol_message(c: char) -> Seq<char> {
    "There was no "@ + seq![c] + " found in encoding map"@
}

/// The preorder token sequence of a tree: '0' before an internal node's
/// left and right subtrees, '1' followed by the symbol for a leaf.
pub open spec fn serialize_spec(n: HuffmanNode) -> Seq<char>
    decreases n,
{
    match n {
        HuffmanNode::Leaf { ch, .. } => seq!['1', ch],
        HuffmanNode::Internal { left, right, .. } => seq!['0'] + serialize_spec(*left)
            + serialize_spec(*right),
    }
}


/// Parses one node from the front of a token sequence: the node, with all
/// frequencies 0, and the number of tokens it spans; none if the tokens run
/// out before the node is complete or a marker is neither '0' nor '1'.
pub open spec fn parse_spec(s: Seq<char>) -> Option<(HuffmanNode, int)>
    decreases s.len(),
{
    if s.len() == 0 {
        None
    } else if s[0] == '1' {
        if s.len() >= 2 {
            Some((HuffmanNode::Leaf { freq: 0, ch: s[1] }, 2))
        } else {
            None
        }
    } else if s[0] == '0' {
        match parse_spec(s.drop_first()) {
            Some((l, k)) => if 0 <= k < s.len() {
                match parse_spec(s.subrange(1 + k, s.len() as int)) {
                    Some((r, m)) => Some(
                        (
                            HuffmanNode::Internal {
                                freq: 0,
                                left: Box::new(l),
                                right: Box::new(r),
                            },
                            1 + k + m,
                        ),
                    ),
                    None => None,
                }
            } else {
                None
            },
            None => None,
        }
    } else {
        None
    }
}

/// Follows `bits` from `n` down to a leaf: its symbol and the number of bits
/// used; none if the bits run out first or one is neither '0' nor '1'.
pub open spec fn walk(n: HuffmanNode, bits: Seq<char>) -> Option<(char, int)>
    decreases n,
{
    match n {
        HuffmanNode::Leaf { ch, .. } => Some((ch, 0)),
        HuffmanNode::Internal { left, right, .. } => if bits.len() == 0 {
            None
        } else if bits[0] == '0' {
            match walk(*left, bits.drop_first()) {
                Some((c, k)) => Some((c, k + 1)),
                None => None,
            }
        } else if bits[0] == '1' {
            match walk(*right, bits.drop_first()) {
                Some((c, k)) => Some((c, k + 1)),
                None => None,
            }
        } else {
            None
        },
    }
}

/// The decoding of a bit-string: the symbols of the leaves reached one after
/// the other from the root. The empty bit-string decodes to the empty text.
/// A tree without a root, or whose root is a leaf (its one codeword is
/// empty), decodes no other bit-string.
pub open spec fn decode_spec(root: Option<HuffmanNode>, bits: Seq<char>) -> Option<Seq<char>>
    decreases bits.len(),
{
    if bits.len() == 0 {
        Some(Seq::empty())
    } else {
        match root {
            Some(HuffmanNode::Internal { .. }) => match walk(root->0, bits) {
                Some((c, k)) => if 0 < k <= bits.len() {
                    match decode_spec(root, bits.subrange(k, bits.len() as int)) {
                        Some(rest) => Some(seq![c] + rest),
                        None => None,
                    }
                } else {
                    None
                },
                None => None,
            },
            _ => None,
        }
    }
}

pub(crate) proof fn lemma_code_pos(t: Seq<(char, Seq<char>)>, c: char)
    ensures
        0 <= code_pos(t, c) <= t.len(),
        code_pos(t, c) < t.len() ==> t[code_pos(t, c)].0 == c,
        forall|j: int| 0 <= j < code_pos(t, c) ==> (#[trigger] t[j]).0 != c,
    decreases t.len(),
{
    if t.len() > 0 && t[0].0 != c {
        lemma_code_pos(t.drop_first(), c);
        assert forall|j: int| 0 <= j < code_pos(t, c) implies (#[trigger] t[j]).0 != c by {
            if j > 0 {
                assert(t[j] == t.drop_first()[j - 1]);
            }
        }
    }
}

proof fn lemma_encode_unknown(t: Seq<(char, Seq<char>)>, text: Seq<char>, k: int)
    requires
        0 <= k < text.len(),
        lookup(t, text[k]) is None,
    ensures
        encode_spec(t, text) is None,
    decreases text.len(),
{
    if k < text.len() - 1 {
        lemma_encode_unknown(t, text.drop_last(), k);
    }
}

proof fn lemma_table_view_push(v: Seq<(char, String)>, e: (char, String))
    ensures
        table_view(v.push(e)) == table_view(v).push((e.0, e.1@)),
{
    assert(table_view(v.push(e)) =~= table_view(v).push((e.0, e.1@)));
}

/// An error of encoding or decoding, with a description of its cause.
pub enum HuffmanError {
    EncodingError(String),
    DecodingError(String),
}

/// A Huffman tree with the code table derived from it.
pub struct HuffmanTree {
    root: Option<Box<HuffmanNode>>,
    code_map: Vec<(char, String)>,
}

/// Appends the codewords of the leaves under `head` to the table, where
/// `path` is the path from the root to `head`.
fn build_code_map(head: &HuffmanNode, path: String, code_map: &mut Vec<(char, String)>)
    ensures
        table_view(final(code_map)@) == table_view(old(code_map)@) + leaf_codes(*head, path@),
    decreases head,
{
    match head {
        HuffmanNode::Leaf { ch, .. } => {
            let ghost before = code_map@;
            let ghost p = path@;
            code_map.push((*ch, path));
            proof {
                lemma_table_view_push(before, (*ch, path));
                assert(table_view(before).push((*ch, p)) =~= table_view(before) + seq![(*ch, p)]);
            }
        },
        HuffmanNode::Internal { left, right, .. } => {
            proof {
                reveal_strlit("0");
                reveal_strlit("1");
            }
            let left_path = path.clone().concat("0");
            build_code_map(left, left_path, code_map);
            let right_path = path.concat("1");
            build_code_map(right, right_path, code_map);
            proof {
                assert(left_path@ =~= path@.push('0'));
                assert(right_path@ =~= path@.push('1'));
            }
        },
    }
}


/// Parses the node that starts at `pos`; gives it and the position after it.
fn parse_node(tokens: &VecDeque<char>, pos: usize) -> (r: Option<(HuffmanNode, usize)>)
    requires
        pos <= tokens@.len(),
    ensures
        match parse_spec(tokens@.subrange(pos as int, tokens@.len() as int)) {
            Some((n, k)) => r is Some && (r->0).0 == n && (r->0).1 == pos + k,
            None => r is None,
        },
        r is Some ==> pos < (r->0).1 <= tokens@.len(),
    decreases tokens@.len() - pos,
{
    let ghost s = tokens@.subrange(pos as int, tokens@.len() as int);
    if pos >= tokens.len() {
        return None;
    }
    let t = tokens[pos];
    if t == '1' {
        if pos + 1 < tokens.len() {
            Some((HuffmanNode::Leaf { freq: 0, ch: tokens[pos + 1] }, pos + 2))
        } else {
            None
        }
    } else if t == '0' {
        proof {
            assert(s.drop_first() =~= tokens@.subrange(pos + 1, tokens@.len() as int));
        }
        match parse_node(tokens, pos + 1) {
            Some((l, p1)) => {
                proof {
                    assert(s.subrange(p1 - pos, s.len() as int) =~= tokens@.subrange(
                        p1 as int,
                        tokens@.len() as int,
                    ));
                }
                match parse_node(tokens, p1) {
                    Some((r, p2)) => Some(
                        (
                            HuffmanNode::Internal { freq: 0, left: Box::new(l), right: Box::new(r) },
                            p2,
                        ),
                    ),
                    None => None,
                }
            },
            None => None,
        }
    } else {
        None
    }
}

/// Follows the bits from `pos` down from `n` to a leaf; gives its symbol
/// and the position after the bits used.
fn walk_node(n: &HuffmanNode, bits: &Vec<char>, pos: usize) -> (r: Option<(char, usize)>)
    requires
        pos <= bits@.len(),
    ensures
        match walk(*n, bits@.subrange(pos as int, bits@.len() as int)) {
            Some((c, k)) => r is Some && (r->0).0 == c && (r->0).1 == pos + k,
            None => r is None,
        },
        r is Some ==> pos <= (r->0).1 <= bits@.len(),
    decreases n,
{
    let ghost s = bits@.subrange(pos as int, bits@.len() as int);
    match n {
        HuffmanNode::Leaf { ch, .. } => Some((*ch, pos)),
        HuffmanNode::Internal { left, right, .. } => {
            if pos >= bits.len() {
                return None;
            }
            proof {
                assert(s.drop_first() =~= bits@.subrange(pos + 1, bits@.len() as int));
            }
            if bits[pos] == '0' {
                walk_node(left, bits, pos + 1)
            } else if bits[pos] == '1' {
                walk_node(right, bits, pos + 1)
            } else {
                None
            }
        },
    }
}

/// Relies on char's `ToString`: the string holds exactly that one symbol.
#[verifier::external_body]
fn symbol_string(c: char) -> (r: String)
    ensures
        r@ == seq![c],
{
    c.to_string()
}

impl HuffmanTree {
    /// The root of the tree, if any.
    pub closed spec fn tree(&self) -> Option<HuffmanNode> {
        match self.root {
            Some(b) => Some(*b),
            None => None,
        }
    }

    /// The code table, in the order of the leaves from left to right.
    pub closed spec fn table(&self) -> Seq<(char, Seq<char>)> {
        table_view(self.code_map@)
    }

    /// The code table is the one derived from the tree.
    pub open spec fn wf(&self) -> bool {
        self.table() == code_table(self.tree())
    }

    /// A tree with the given root and the code table derived from it.
    fn with_root(root: Option<HuffmanNode>) -> (r: Self)
        ensures
            r.tree() == root,
            r.wf(),
    {
        let mut code_map: Vec<(char, String)> = Vec::new();
        match root {
            Some(head) => {
                build_code_map(&head, String::new(), &mut code_map);
                proof {
                    assert(table_view(code_map@) =~= code_table(Some(head)));
                }
                HuffmanTree { root: Some(Box::new(head)), code_map }
            },
            None => {
                proof {
                    assert(table_view(code_map@) =~= Seq::<(char, Seq<char>)>::empty());
                }
                HuffmanTree { root: None, code_map }
            },
        }
    }

    /// Builds the Huffman tree of a text and its code table.
    pub fn new(contents: &str) -> (r: Self)
        ensures
            r.tree() == huffman_spec(frequency_table(contents@)),
            r.wf(),
    {
        let frequency_map = get_frequency_map(contents);
        let root = build_tree(frequency_map);
        Self::with_root(root)
    }

    /// Appends the preorder tokens of `node` to `output`.
    fn serialize_node(node: &HuffmanNode, output: &mut VecDeque<char>)
        ensures
            final(output)@ == old(output)@ + serialize_spec(*node),
        decreases node,
    {
        match node {
            HuffmanNode::Leaf { ch, .. } => {
                let ghost before = output@;
                output.push_back('1');
                output.push_back(*ch);
                proof {
                    assert(output@ =~= before + serialize_spec(*node));
                }
            },
            HuffmanNode::Internal { left, right, .. } => {
                let ghost before = output@;
                output.push_back('0');
                HuffmanTree::serialize_node(left, output);
                HuffmanTree::serialize_node(right, output);
                proof {
                    assert(output@ =~= before + serialize_spec(*node));
                }
            },
        }
    }

    /// The preorder token sequence of the tree, or none if it has no root.
    pub fn serialize_table(&self) -> (r: Option<VecDeque<char>>)
        ensures
            r is Some <==> self.tree() is Some,
            r is Some ==> r->0@ == serialize_spec(self.tree()->0),
    {
        match &self.root {
            Some(root) => {
                let mut serialized_huffman: VecDeque<char> = VecDeque::new();
                HuffmanTree::serialize_node(root, &mut serialized_huffman);
                proof {
                    assert(serialized_huffman@ =~= serialize_spec(self.tree()->0));
                }
                Some(serialized_huffman)
            },
            None => None,
        }
    }

    /// Position of the entry for `c` in the code table, if there is one.
    fn find_code(&self, c: char) -> (r: Option<usize>)
        ensures
            r is Some <==> lookup(self.table(), c) is Some,
            r is Some ==> r->0 < self.code_map.len() && lookup(self.table(), c) == Some(
                self.code_map@[r->0 as int].1@,
            ),
    {
        let mut i: usize = 0;
        while i < self.code_map.len()
            invariant
                0 <= i <= self.code_map.len(),
                forall|j: int| 0 <= j < i ==> (#[trigger] self.table()[j]).0 != c,
            ensures
                0 <= i <= self.code_map.len(),
                i < self.code_map.len() ==> self.table()[i as int].0 == c,
                forall|j: int| 0 <= j < i ==> (#[trigger] self.table()[j]).0 != c,
            decreases self.code_map.len() - i,
        {
            if self.code_map[i].0 == c {
                break;
            }
            i = i + 1;
        }
        proof {
            lemma_code_pos(self.table(), c);
            if code_pos(self.table(), c) < i {
                assert(self.table()[code_pos(self.table(), c)].0 != c);
            }
            if i < code_pos(self.table(), c) {
                assert(self.table()[i as int].0 != c);
            }
        }
        if i < self.code_map.len() {
            Some(i)
        } else {
            None
        }
    }

    /// Encodes a text: the concatenation of the codewords of its symbols.
    /// A symbol without a codeword fails the whole encoding with an error
    /// that names the first such symbol.
    pub fn get_encoded(&self, to_be_encoded: &str) -> (r: Result<String, HuffmanError>)
        ensures
            match r {
                Ok(s) => encode_spec(self.table(), to_be_encoded@) == Some(s@),
                Err(HuffmanError::EncodingError(m)) => encode_spec(self.table(), to_be_encoded@)
                    is None && exists|k: int|
                    first_unknown_at(self.table(), to_be_encoded@, k) && m@
                        == unknown_symbol_message(to_be_encoded@[k]),
                Err(_) => false,
            },
    {
        let text = chars_of(to_be_encoded);
        let mut encode_string = String::new();
        let mut k: usize = 0;
        while k < text.len()
            invariant
                text@ == to_be_encoded@,
                0 <= k <= text.len(),
                encode_spec(self.table(), text@.take(k as int)) == Some(encode_string@),
                forall|j: int| 0 <= j < k ==> lookup(self.table(), #[trigger] text@[j]) is Some,
            decreases text.len() - k,
        {
            let c = text[k];
            proof {
                assert(text@.take(k + 1).drop_last() =~= text@.take(k as int));
            }
            match self.find_code(c) {
                Some(i) => {
                    encode_string.append(self.code_map[i].1.as_str());
                },
                None => {
                    proof {
                        lemma_encode_unknown(self.table(), text@, k as int);
                        reveal_strlit("There was no ");
                        reveal_strlit(" found in encoding map");
                        assert(first_unknown_at(self.table(), to_be_encoded@, k as int));
                    }
                    let mut msg = String::from_str("There was no ");
                    let sym = symbol_string(c);
                    msg.append(sym.as_str());
                    msg.append(" found in encoding map");
                    return Err(HuffmanError::EncodingError(msg));
                },
            }
            k = k + 1;
        }
        proof {
            assert(text@.take(k as int) =~= text@);
        }
        Ok(encode_string)
    }

    /// Rebuilds a tree from its preorder token sequence, with all
    /// frequencies 0, and derives its code table. Fails if the tokens do
    /// not form one node, or if tokens are left after it.
    pub fn from_serialized(serialized_tree: &VecDeque<char>) -> (r: Result<Self, HuffmanError>)
        ensures
            r is Ok <==> (parse_spec(serialized_tree@) is Some && (parse_spec(serialized_tree@)->0).1
                == serialized_tree@.len()),
            r is Ok ==> r->Ok_0.tree() == Some((parse_spec(serialized_tree@)->0).0) && r->Ok_0.wf(),
            r is Err ==> r->Err_0 is DecodingError,
    {
        proof {
            assert(serialized_tree@.subrange(0, serialized_tree@.len() as int) =~= serialized_tree@);
        }
        match parse_node(serialized_tree, 0) {
            Some((head, end)) => {
                if end == serialized_tree.len() {
                    Ok(Self::with_root(Some(head)))
                } else {
                    Err(HuffmanError::DecodingError(String::from_str("tokens left after the tree")))
                }
            },
            None => Err(HuffmanError::DecodingError(String::from_str("malformed or truncated tree"))),
        }
    }

    /// Decodes a bit-string: from the root, '0' goes to the left child and
    /// '1' to the right child; each leaf reached gives its symbol and the
    /// walk starts again at the root. Fails on a bit-string that ends inside
    /// a codeword or holds another character; a tree whose root is a leaf
    /// decodes only the empty bit-string.
    pub fn get_decoded(&self, to_be_decoded: &str) -> (r: Result<String, HuffmanError>)
        ensures
            match decode_spec(self.tree(), to_be_decoded@) {
                Some(t) => r is Ok && r->Ok_0@ == t,
                None => r is Err && r->Err_0 is DecodingError,
            },
    {
        let bits = chars_of(to_be_decoded);
        let mut decoded = String::new();
        if bits.len() == 0 {
            return Ok(decoded);
        }
        let root: &HuffmanNode = match &self.root {
            Some(root) => {
                match &**root {
                    HuffmanNode::Internal { .. } => root,
                    HuffmanNode::Leaf { .. } => {
                        return Err(
                            HuffmanError::DecodingError(
                                String::from_str("a tree of one leaf decodes no bits"),
                            ),
                        );
                    },
                }
            },
            None => {
                return Err(HuffmanError::DecodingError(String::from_str("the tree is empty")));
            },
        };
        let mut pos: usize = 0;
        proof {
            assert(bits@.subrange(0, bits@.len() as int) =~= bits@);
        }
        while pos < bits.len()
            invariant
                bits@ == to_be_decoded@,
                0 <= pos <= bits.len(),
                self.tree() == Some(*root),
                root is Internal,
                match decode_spec(self.tree(), bits@.subrange(pos as int, bits@.len() as int)) {
                    Some(rest) => decode_spec(self.tree(), bits@) == Some(decoded@ + rest),
                    None => decode_spec(self.tree(), bits@) is None,
                },
            decreases bits.len() - pos,
        {
            let ghost s = bits@.subrange(pos as int, bits@.len() as int);
            match walk_node(root, &bits, pos) {
                Some((c, next)) => {
                    if next == pos {
                        return Err(HuffmanError::DecodingError(String::from_str("empty codeword")));
                    }
                    proof {
                        assert(s.subrange(next - pos, s.len() as int) =~= bits@.subrange(
                            next as int,
                            bits@.len() as int,
                        ));
                    }
                    let ghost before = decoded@;
                    let sym = symbol_string(c);
                    decoded.append(sym.as_str());
                    proof {
                        match decode_spec(self.tree(), bits@.subrange(next as int, bits@.len() as int)) {
                            Some(rest) => {
                                assert(before + (seq![c] + rest) =~= decoded@ + rest);
                            },
                            None => {},
                        }
                    }
                    pos = next;
                },
                None => {
                    return Err(HuffmanError::DecodingError(String::from_str("bits end inside a codeword")));
                },
            }
        }
        proof {
            assert(bits@.subrange(pos as int, bits@.len() as int) =~= Seq::<char>::empty());
            assert(decoded@ + Seq::<char>::empty() =~= decoded@);
        }
        Ok(decoded)
    }

}

} // verus!
