use vstd::prelude::*;
use crate::huffman::{
    add_occurrence, is_leaf_of, occurrences, code_pos, code_table, decode_spec, encode_spec, frequency_table, huffman_spec, leaf_codes,
    leaf_pos, lemma_code_pos, lemma_leaf_pos, lemma_min_at, lookup, merge_step, min_at, parse_spec,
    serialize_spec, walk, HuffmanNode, HuffmanTree,
};

verus! {

/// The shape of a tree, with every frequency set to 0.
pub open spec fn shape(n: HuffmanNode) -> HuffmanNode
    decreases n,
{
    match n {
        HuffmanNode::Leaf { ch, .. } => HuffmanNode::Leaf { freq: 0, ch },
        HuffmanNode::Internal { left, right, .. } => HuffmanNode::Internal {
            freq: 0,
            left: Box::new(shape(*left)),
            right: Box::new(shape(*right)),
        },
    }
}

/// `a` is a prefix of `b`.
pub open spec fn is_prefix(a: Seq<char>, b: Seq<char>) -> bool {
    a.len() <= b.len() && b.subrange(0, a.len() as int) == a
}

proof fn lemma_parse_serialized(n: HuffmanNode, rest: Seq<char>)
    ensures
        parse_spec(serialize_spec(n) + rest) == Some((shape(n), serialize_spec(n).len() as int)),
    decreases n,
{
    let s = serialize_spec(n) + rest;
    match n {
        HuffmanNode::Leaf { ch, .. } => {
            assert(s[0] == '1' && s[1] == ch);
        },
        HuffmanNode::Internal { left, right, .. } => {
            let sl = serialize_spec(*left);
            let sr = serialize_spec(*right);
            assert(s[0] == '0');
            assert(s.drop_first() =~= sl + (sr + rest));
            lemma_parse_serialized(*left, sr + rest);
            assert(s.subrange(1 + sl.len() as int, s.len() as int) =~= sr + rest);
            lemma_parse_serialized(*right, rest);
        },
    }
}

proof fn lemma_shape_codes(n: HuffmanNode, path: Seq<char>)
    ensures
        leaf_codes(shape(n), path) == leaf_codes(n, path),
    decreases n,
{
    if let HuffmanNode::Internal { left, right, .. } = n {
        lemma_shape_codes(*left, path.push('0'));
        lemma_shape_codes(*right, path.push('1'));
    }
}

/// Serialization round trip: parsing the serialization of a tree consumes
/// all of it and gives back the tree's shape, whose code table is the
/// tree's own.
pub proof fn lemma_serialize_round_trip(n: HuffmanNode)
    ensures
        parse_spec(serialize_spec(n)) == Some((shape(n), serialize_spec(n).len() as int)),
        code_table(Some(shape(n))) == code_table(Some(n)),
{
    lemma_parse_serialized(n, Seq::empty());
    assert(serialize_spec(n) + Seq::<char>::empty() =~= serialize_spec(n));
    lemma_shape_codes(n, Seq::empty());
}

proof fn lemma_codes_extend_path(n: HuffmanNode, path: Seq<char>)
    ensures
        forall|k: int|
            0 <= k < leaf_codes(n, path).len() ==> is_prefix(path, #[trigger] leaf_codes(n, path)[k].1),
        n is Internal ==> forall|k: int|
            0 <= k < leaf_codes(n, path).len() ==> path.len() < (#[trigger] leaf_codes(n, path)[k]).1.len(),
    decreases n,
{
    if let HuffmanNode::Internal { left, right, .. } = n {
        let p0 = path.push('0');
        let p1 = path.push('1');
        lemma_codes_extend_path(*left, p0);
        lemma_codes_extend_path(*right, p1);
        let l = leaf_codes(*left, p0);
        let r = leaf_codes(*right, p1);
        assert forall|k: int| 0 <= k < leaf_codes(n, path).len() implies is_prefix(
            path,
            #[trigger] leaf_codes(n, path)[k].1,
        ) && path.len() < leaf_codes(n, path)[k].1.len() by {
            let c = leaf_codes(n, path)[k].1;
            if k < l.len() {
                assert(c == l[k].1);
                assert(is_prefix(p0, c));
                assert(c.subrange(0, path.len() as int) =~= p0.subrange(0, path.len() as int));
                assert(p0.subrange(0, path.len() as int) =~= path);
            } else {
                assert(c == r[k - l.len()].1);
                assert(is_prefix(p1, c));
                assert(c.subrange(0, path.len() as int) =~= p1.subrange(0, path.len() as int));
                assert(p1.subrange(0, path.len() as int) =~= path);
            }
        }
    } else {
        assert(leaf_codes(n, path)[0].1 == path);
        assert(path.subrange(0, path.len() as int) =~= path);
    }
}

proof fn lemma_prefix_free_at(n: HuffmanNode, path: Seq<char>, i: int, j: int)
    requires
        0 <= i < leaf_codes(n, path).len(),
        0 <= j < leaf_codes(n, path).len(),
        i != j,
    ensures
        !is_prefix(leaf_codes(n, path)[i].1, leaf_codes(n, path)[j].1),
    decreases n,
{
    if let HuffmanNode::Internal { left, right, .. } = n {
        let p0 = path.push('0');
        let p1 = path.push('1');
        let l = leaf_codes(*left, p0);
        let r = leaf_codes(*right, p1);
        let t = leaf_codes(n, path);
        lemma_codes_extend_path(*left, p0);
        lemma_codes_extend_path(*right, p1);
        if i < l.len() && j < l.len() {
            lemma_prefix_free_at(*left, p0, i, j);
        } else if i >= l.len() && j >= l.len() {
            lemma_prefix_free_at(*right, p1, i - l.len(), j - l.len());
        } else {
            let a = t[i].1;
            let b = t[j].1;
            let (pa, pb) = if i < l.len() { (p0, p1) } else { (p1, p0) };
            if i < l.len() {
                assert(a == l[i].1 && b == r[j - l.len()].1);
            } else {
                assert(a == r[i - l.len()].1 && b == l[j].1);
            }
            assert(is_prefix(pa, a) && is_prefix(pb, b));
            assert(a[path.len() as int] == a.subrange(0, pa.len() as int)[path.len() as int]);
            assert(b[path.len() as int] == b.subrange(0, pb.len() as int)[path.len() as int]);
            if is_prefix(a, b) {
                assert(b[path.len() as int] == b.subrange(0, a.len() as int)[path.len() as int]);
            }
        }
    }
}

/// Prefix freedom: of two entries of a tree's code table, the codeword of
/// neither is a prefix of that of the other.
pub proof fn lemma_prefix_free(root: HuffmanNode, i: int, j: int)
    requires
        0 <= i < code_table(Some(root)).len(),
        0 <= j < code_table(Some(root)).len(),
        i != j,
    ensures
        !is_prefix(code_table(Some(root))[i].1, code_table(Some(root))[j].1),
{
    lemma_prefix_free_at(root, Seq::empty(), i, j);
}

/// Determinism: two trees built from the same text have the same root and
/// the same code table.
pub proof fn lemma_build_deterministic(a: HuffmanTree, b: HuffmanTree, text: Seq<char>)
    requires
        a.tree() == huffman_spec(frequency_table(text)),
        b.tree() == huffman_spec(frequency_table(text)),
        a.wf(),
        b.wf(),
    ensures
        a.tree() == b.tree(),
        a.table() == b.table(),
{
}

proof fn lemma_walk_code(n: HuffmanNode, path: Seq<char>, k: int, rest: Seq<char>)
    requires
        0 <= k < leaf_codes(n, path).len(),
    ensures
        walk(
            n,
            leaf_codes(n, path)[k].1.subrange(path.len() as int, leaf_codes(n, path)[k].1.len() as int)
                + rest,
        ) == Some((leaf_codes(n, path)[k].0, leaf_codes(n, path)[k].1.len() - path.len())),
    decreases n,
{
    let e = leaf_codes(n, path)[k];
    let p = e.1;
    lemma_codes_extend_path(n, path);
    match n {
        HuffmanNode::Leaf { .. } => {
            assert(p.subrange(path.len() as int, p.len() as int) + rest =~= rest);
        },
        HuffmanNode::Internal { left, right, .. } => {
            let p0 = path.push('0');
            let p1 = path.push('1');
            let l = leaf_codes(*left, p0);
            let bits = p.subrange(path.len() as int, p.len() as int) + rest;
            if k < l.len() {
                assert(e == l[k]);
                lemma_codes_extend_path(*left, p0);
                lemma_walk_code(*left, p0, k, rest);
                assert(p[path.len() as int] == p.subrange(0, p0.len() as int)[path.len() as int]);
                assert(bits.drop_first() =~= p.subrange(p0.len() as int, p.len() as int) + rest);
            } else {
                assert(e == leaf_codes(*right, p1)[k - l.len()]);
                lemma_codes_extend_path(*right, p1);
                lemma_walk_code(*right, p1, k - l.len(), rest);
                assert(p[path.len() as int] == p.subrange(0, p1.len() as int)[path.len() as int]);
                assert(bits.drop_first() =~= p.subrange(p1.len() as int, p.len() as int) + rest);
            }
        },
    }
}

proof fn lemma_decode_encoded(root: HuffmanNode, text: Seq<char>, rest: Seq<char>)
    requires
        root is Internal,
        encode_spec(code_table(Some(root)), text) is Some,
    ensures
        decode_spec(Some(root), encode_spec(code_table(Some(root)), text)->0 + rest) == match decode_spec(
            Some(root),
            rest,
        ) {
            Some(r) => Some(text + r),
            None => None,
        },
    decreases text.len(),
{
    let table = code_table(Some(root));
    if text.len() == 0 {
        assert(encode_spec(table, text)->0 + rest =~= rest);
        assert(decode_spec(Some(root), rest) matches Some(r) ==> text + r =~= r);
    } else {
        let front = text.drop_last();
        let c = text.last();
        let e0 = encode_spec(table, front)->0;
        let p = lookup(table, c)->0;
        lemma_decode_encoded(root, front, p + rest);
        assert(encode_spec(table, text)->0 + rest =~= e0 + (p + rest));
        lemma_code_pos(table, c);
        let k = code_pos(table, c);
        lemma_walk_code(root, Seq::empty(), k, rest);
        lemma_codes_extend_path(root, Seq::empty());
        assert(p.subrange(0, p.len() as int) =~= p);
        assert((p + rest).subrange(p.len() as int, (p + rest).len() as int) =~= rest);
        match decode_spec(Some(root), rest) {
            Some(r) => {
                assert(front + (seq![c] + r) =~= text + r);
            },
            None => {},
        }
    }
}

/// Round trip: for a tree whose root is an internal node, decoding the
/// encoding of a text whose symbols all have codewords gives the text back.
pub proof fn lemma_round_trip(root: HuffmanNode, text: Seq<char>)
    requires
        root is Internal,
        encode_spec(code_table(Some(root)), text) is Some,
    ensures
        decode_spec(Some(root), encode_spec(code_table(Some(root)), text)->0) == Some(text),
{
    lemma_decode_encoded(root, text, Seq::empty());
    let e = encode_spec(code_table(Some(root)), text)->0;
    assert(e + Seq::<char>::empty() =~= e);
    assert(text + Seq::<char>::empty() =~= text);
}

/// The symbols of the leaves under a node.
pub open spec fn leaf_syms(n: HuffmanNode) -> Set<char>
    decreases n,
{
    match n {
        HuffmanNode::Leaf { ch, .. } => set![ch],
        HuffmanNode::Internal { left, right, .. } => leaf_syms(*left) + leaf_syms(*right),
    }
}

/// Some node of the queue has a leaf holding `c`.
pub open spec fn queue_has(q: Seq<HuffmanNode>, c: char) -> bool {
    exists|i: int| 0 <= i < q.len() && leaf_syms(#[trigger] q[i]).contains(c)
}

proof fn lemma_add_occurrence(q0: Seq<HuffmanNode>, c: char) -> (x0: int)
    ensures
        0 <= x0 <= q0.len(),
        add_occurrence(q0, c).len() == if x0 < q0.len() { q0.len() } else { q0.len() + 1 },
        add_occurrence(q0, c)[x0] is Leaf,
        leaf_syms(add_occurrence(q0, c)[x0]) == set![c],
        x0 < q0.len() ==> is_leaf_of(q0[x0], c),
        forall|x: int| 0 <= x < q0.len() && x != x0 ==> add_occurrence(q0, c)[x] == q0[x],
{
    lemma_leaf_pos(q0, c);
    leaf_pos(q0, c)
}

proof fn lemma_frequency_table_leaves(text: Seq<char>)
    ensures
        forall|i: int|
            0 <= i < frequency_table(text).len() ==> #[trigger] frequency_table(text)[i] is Leaf,
        forall|k: int| 0 <= k < text.len() ==> queue_has(frequency_table(text), #[trigger] text[k]),
    decreases text.len(),
{
    if text.len() > 0 {
        let front = text.drop_last();
        let c = text.last();
        let q0 = frequency_table(front);
        let q = frequency_table(text);
        lemma_frequency_table_leaves(front);
        let x0 = lemma_add_occurrence(q0, c);
        assert forall|x: int| 0 <= x < q.len() implies #[trigger] q[x] is Leaf by {
            if x != x0 {
                assert(q[x] == q0[x]);
            }
        }
        assert forall|k: int| 0 <= k < text.len() implies queue_has(q, #[trigger] text[k]) by {
            if k == text.len() - 1 {
                assert(leaf_syms(q[x0]).contains(c));
            } else {
                assert(text[k] == front[k]);
                let w = choose|w: int| 0 <= w < q0.len() && leaf_syms(#[trigger] q0[w]).contains(text[k]);
                if w == x0 {
                    assert(q0[w] is Leaf);
                    assert(is_leaf_of(q0[w], c));
                    assert(leaf_syms(q0[w]) == set![c]);
                    assert(leaf_syms(q[w]).contains(text[k]));
                } else {
                    assert(q[w] == q0[w]);
                }
            }
        }
    }
}

proof fn lemma_remove_keeps(q: Seq<HuffmanNode>, i: int, c: char) -> (x: int)
    requires
        0 <= i < q.len(),
        queue_has(q, c),
        !leaf_syms(q[i]).contains(c),
    ensures
        0 <= x < q.remove(i).len(),
        leaf_syms(q.remove(i)[x]).contains(c),
{
    let w = choose|w: int| 0 <= w < q.len() && leaf_syms(#[trigger] q[w]).contains(c);
    if w < i {
        assert(q.remove(i)[w] == q[w]);
        w
    } else {
        assert(q.remove(i)[w - 1] == q[w]);
        w - 1
    }
}

proof fn lemma_merge_step_keeps(q: Seq<HuffmanNode>, c: char)
    requires
        q.len() >= 2,
        queue_has(q, c),
    ensures
        merge_step(q).len() == q.len() - 1,
        merge_step(q).last() is Internal,
        queue_has(merge_step(q), c),
{
    lemma_min_at(q);
    let i = min_at(q);
    let rest = q.remove(i);
    lemma_min_at(rest);
    let j = min_at(rest);
    let m = merge_step(q);
    let last = m.len() - 1;
    if leaf_syms(q[i]).contains(c) {
        assert(leaf_syms(m[last]).contains(c));
    } else {
        let x = lemma_remove_keeps(q, i, c);
        if leaf_syms(rest[j]).contains(c) {
            assert(leaf_syms(m[last]).contains(c));
        } else {
            let y = lemma_remove_keeps(rest, j, c);
            assert(m[y] == rest.remove(j)[y]);
        }
    }
}

proof fn lemma_huffman_keeps(q: Seq<HuffmanNode>)
    requires
        q.len() >= 2,
    ensures
        huffman_spec(q) is Some,
        huffman_spec(q)->0 is Internal,
        forall|c: char| queue_has(q, c) ==> leaf_syms(huffman_spec(q)->0).contains(c),
    decreases q.len(),
{
    lemma_min_at(q);
    lemma_min_at(q.remove(min_at(q)));
    let m = merge_step(q);
    assert(m.len() == q.len() - 1);
    assert(m.last() is Internal);
    if m.len() >= 2 {
        lemma_huffman_keeps(m);
    }
    assert forall|c: char| queue_has(q, c) implies leaf_syms(huffman_spec(q)->0).contains(c) by {
        lemma_merge_step_keeps(q, c);
        if m.len() == 1 {
            let w = choose|w: int| 0 <= w < m.len() && leaf_syms(#[trigger] m[w]).contains(c);
            assert(w == 0);
        }
    }
}

proof fn lemma_codes_cover(n: HuffmanNode, path: Seq<char>, c: char) -> (k: int)
    requires
        leaf_syms(n).contains(c),
    ensures
        0 <= k < leaf_codes(n, path).len(),
        leaf_codes(n, path)[k].0 == c,
    decreases n,
{
    match n {
        HuffmanNode::Leaf { .. } => 0,
        HuffmanNode::Internal { left, right, .. } => {
            let l = leaf_codes(*left, path.push('0'));
            if leaf_syms(*left).contains(c) {
                lemma_codes_cover(*left, path.push('0'), c)
            } else {
                let k = lemma_codes_cover(*right, path.push('1'), c);
                l.len() + k
            }
        },
    }
}

proof fn lemma_encode_known(t: Seq<(char, Seq<char>)>, text: Seq<char>)
    requires
        forall|k: int| 0 <= k < text.len() ==> lookup(t, #[trigger] text[k]) is Some,
    ensures
        encode_spec(t, text) is Some,
    decreases text.len(),
{
    if text.len() > 0 {
        let front = text.drop_last();
        assert forall|k: int| 0 <= k < front.len() implies lookup(t, #[trigger] front[k]) is Some by {
            assert(front[k] == text[k]);
        }
        lemma_encode_known(t, front);
        assert(lookup(t, text[text.len() - 1]) is Some);
    }
}

/// Round trip on built trees: for a text with two distinct symbols, the
/// tree built from it has an internal root, encodes the text, and decoding
/// that encoding gives the text back.
pub proof fn lemma_built_round_trip(text: Seq<char>, i: int, j: int)
    requires
        0 <= i < text.len(),
        0 <= j < text.len(),
        text[i] != text[j],
    ensures
        huffman_spec(frequency_table(text)) is Some,
        huffman_spec(frequency_table(text))->0 is Internal,
        encode_spec(code_table(huffman_spec(frequency_table(text))), text) is Some,
        decode_spec(
            huffman_spec(frequency_table(text)),
            encode_spec(code_table(huffman_spec(frequency_table(text))), text)->0,
        ) == Some(text),
{
    let q = frequency_table(text);
    lemma_frequency_table_leaves(text);
    assert(queue_has(q, text[i]) && queue_has(q, text[j]));
    if q.len() < 2 {
        let a = choose|w: int| 0 <= w < q.len() && leaf_syms(#[trigger] q[w]).contains(text[i]);
        let b = choose|w: int| 0 <= w < q.len() && leaf_syms(#[trigger] q[w]).contains(text[j]);
        assert(a == 0 && b == 0);
        assert(q[0] is Leaf);
        assert(false);
    }
    lemma_huffman_keeps(q);
    let root = huffman_spec(q)->0;
    let table = code_table(Some(root));
    assert forall|k: int| 0 <= k < text.len() implies lookup(table, #[trigger] text[k]) is Some by {
        assert(queue_has(q, text[k]));
        let x = lemma_codes_cover(root, Seq::empty(), text[k]);
        lemma_code_pos(table, text[k]);
    }
    lemma_encode_known(table, text);
    lemma_round_trip(root, text);
}

proof fn lemma_occurrences_absent(text: Seq<char>, c: char)
    requires
        forall|k: int| 0 <= k < text.len() ==> #[trigger] text[k] != c,
    ensures
        occurrences(text, c) == 0,
    decreases text.len(),
{
    if text.len() > 0 {
        let front = text.drop_last();
        assert forall|k: int| 0 <= k < front.len() implies #[trigger] front[k] != c by {
            assert(front[k] == text[k]);
        }
        lemma_occurrences_absent(front, c);
        assert(text[text.len() - 1] != c);
    }
}

proof fn lemma_occurrences_bound(text: Seq<char>, c: char)
    ensures
        occurrences(text, c) <= text.len(),
    decreases text.len(),
{
    if text.len() > 0 {
        lemma_occurrences_bound(text.drop_last(), c);
    }
}

/// The frequency table of a text has one leaf per distinct symbol of the
/// text, each with the symbol's number of occurrences, which is at least 1.
pub proof fn lemma_frequency_counts(text: Seq<char>)
    requires
        text.len() <= usize::MAX,
    ensures
        forall|i: int|
            0 <= i < frequency_table(text).len() ==> {
                let n = #[trigger] frequency_table(text)[i];
                &&& n is Leaf
                &&& n->Leaf_freq == occurrences(text, n->Leaf_ch)
                &&& n->Leaf_freq >= 1
            },
        forall|i: int, j: int|
            0 <= i < j < frequency_table(text).len() ==> (#[trigger] frequency_table(text)[i])->Leaf_ch
                != (#[trigger] frequency_table(text)[j])->Leaf_ch,
        forall|k: int|
            0 <= k < text.len() ==> exists|i: int|
                0 <= i < frequency_table(text).len() && (#[trigger] frequency_table(text)[i])->Leaf_ch
                    == #[trigger] text[k],
    decreases text.len(),
{
    lemma_frequency_table_leaves(text);
    let q = frequency_table(text);
    if text.len() > 0 {
        let front = text.drop_last();
        let c = text.last();
        let q0 = frequency_table(front);
        lemma_frequency_counts(front);
        lemma_frequency_table_leaves(front);
        lemma_leaf_pos(q0, c);
        let x0 = lemma_add_occurrence(q0, c);
        assert(q == add_occurrence(q0, c));
        if x0 == q0.len() {
            assert forall|k: int| 0 <= k < front.len() implies #[trigger] front[k] != c by {
                let w = choose|w: int| 0 <= w < q0.len() && q0[w]->Leaf_ch == front[k];
                assert(!is_leaf_of(q0[w], c));
            }
            lemma_occurrences_absent(front, c);
        } else {
            lemma_occurrences_bound(front, c);
        }
        assert(q[x0]->Leaf_ch == c);
        assert forall|i: int| 0 <= i < q.len() implies {
            let n = #[trigger] q[i];
            &&& n is Leaf
            &&& n->Leaf_freq == occurrences(text, n->Leaf_ch)
            &&& n->Leaf_freq >= 1
        } by {
            if i != x0 {
                assert(q[i] == q0[i]);
                assert(q0[i]->Leaf_ch != c) by {
                    if i < x0 {
                        assert(!is_leaf_of(q0[i], c));
                    } else {
                        assert(q0[x0]->Leaf_ch == c);
                    }
                }
            }
        }
        assert forall|i: int, j: int| 0 <= i < j < q.len() implies (#[trigger] q[i])->Leaf_ch
            != (#[trigger] q[j])->Leaf_ch by {
            if i != x0 && j != x0 {
                assert(q[i] == q0[i] && q[j] == q0[j]);
            } else if i == x0 {
                assert(q[j] == q0[j]);
                assert(!is_leaf_of(q0[j], c) || j < x0);
            } else {
                assert(q[i] == q0[i]);
                assert(!is_leaf_of(q0[i], c));
            }
        }
        assert forall|k: int| 0 <= k < text.len() implies exists|i: int|
            0 <= i < q.len() && (#[trigger] q[i])->Leaf_ch == #[trigger] text[k] by {
            if k == text.len() - 1 {
                assert(q[x0]->Leaf_ch == text[k]);
            } else {
                assert(text[k] == front[k]);
                let w = choose|w: int| 0 <= w < q0.len() && q0[w]->Leaf_ch == front[k];
                if w == x0 {
                    assert(q[x0]->Leaf_ch == text[k]);
                } else {
                    assert(q[w] == q0[w]);
                }
            }
        }
    }
}

} // verus!
