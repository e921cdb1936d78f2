use vstd::prelude::*;
use crate::error::AlsError;
use crate::text::str_eq;
use vstd::string::StringSliceAdditionalSpecFns;

verus! {

/// One node of a parsed XML document, as plain values: whether it is an
/// element, its local tag name (empty for non-elements), its attributes in
/// document order, its byte range in the source text, and the position of
/// its parent in the document-order node list.
pub struct XmlNode {
    pub element: bool,
    pub name: String,
    pub attrs: Vec<(String, String)>,
    pub start: usize,
    pub end: usize,
    pub parent: Option<usize>,
}

/// Mathematical view of an [`XmlNode`].
pub struct NodeV {
    pub element: bool,
    pub name: Seq<char>,
    pub attrs: Seq<(Seq<char>, Seq<char>)>,
    pub start: int,
    pub end: int,
    pub parent: Option<int>,
}

pub open spec fn attr_view(a: (String, String)) -> (Seq<char>, Seq<char>) {
    (a.0@, a.1@)
}

impl View for XmlNode {
    type V = NodeV;

    open spec fn view(&self) -> NodeV {
        NodeV {
            element: self.element,
            name: self.name@,
            attrs: self.attrs@.map_values(|a: (String, String)| attr_view(a)),
            start: self.start as int,
            end: self.end as int,
            parent: match self.parent {
                Some(p) => Some(p as int),
                None => None,
            },
        }
    }
}

pub open spec fn nodes_view(nodes: Seq<XmlNode>) -> Seq<NodeV> {
    nodes.map_values(|n: XmlNode| n@)
}

/// The node list that the XML parser produces for `text` (every node in
/// document order, the root first), or `None` when `text` is not a
/// well-formed XML document.
pub uninterp spec fn xml_parsed(text: Seq<char>) -> Option<Seq<NodeV>>;

/// Parses `text` with `roxmltree::Document::parse` and lists every node of
/// the document (`Document::descendants`, document order) as plain values.
/// Trusted: the result is `Ok` exactly when the parser accepts the text,
/// and then equals `xml_parsed(text@)`; the error message is not stated.
#[verifier::external_body]
pub(crate) fn parse_xml_nodes(text: &str) -> (res: Result<Vec<XmlNode>, String>)
    ensures
        match res {
            Ok(nodes) => xml_parsed(text@) == Some(nodes_view(nodes@)),
            Err(_) => xml_parsed(text@) is None,
        },
{
    let doc = roxmltree::Document::parse(text).map_err(|e| e.to_string())?;
    Ok(doc.descendants().map(|n| XmlNode {
        element: n.is_element(),
        name: n.tag_name().name().to_string(),
        attrs: n.attributes().map(|a| (a.name().to_string(), a.value().to_string())).collect(),
        start: n.range().start,
        end: n.range().end,
        parent: n.parent().map(|p| p.id().get_usize()),
    }).collect())
}

// ---------------------------------------------------------------------------
// The tree structure of a node list
// ---------------------------------------------------------------------------

/// `j` is `i` or lies below `i`: following parent links up from `j`
/// reaches `i`.
pub open spec fn is_desc(nodes: Seq<NodeV>, j: int, i: int) -> bool
    decreases j,
{
    if !(0 <= j < nodes.len()) {
        false
    } else if j == i {
        true
    } else {
        match nodes[j].parent {
            Some(p) => 0 <= p < j && is_desc(nodes, p, i),
            None => false,
        }
    }
}

/// A node list is a tree listed in document order: the root comes first and
/// has no parent, every other node's parent comes before it and is an
/// ancestor of (or is) the node listed just before it, and every byte range
/// lies within the source text.
#[verifier::opaque]
pub open spec fn tree_wf(nodes: Seq<NodeV>, text_len: int) -> bool {
    &&& nodes.len() >= 1
    &&& nodes[0].parent is None
    &&& forall|j: int|
        #![trigger nodes[j].parent]
        1 <= j < nodes.len() ==> match nodes[j].parent {
            Some(p) => 0 <= p < j && is_desc(nodes, j - 1, p),
            None => false,
        }
    &&& forall|j: int|
        #![trigger nodes[j].start]
        0 <= j < nodes.len() ==> 0 <= nodes[j].start <= nodes[j].end <= text_len
}

/// The indices `k` with `lo <= k < hi` that satisfy `pred`, in increasing
/// order.
pub open spec fn select(lo: int, hi: int, pred: spec_fn(int) -> bool) -> Seq<int>
    decreases hi - lo,
{
    if hi <= lo {
        Seq::empty()
    } else if pred(hi - 1) {
        select(lo, hi - 1, pred).push(hi - 1)
    } else {
        select(lo, hi - 1, pred)
    }
}

/// A node filter: optionally only elements, optionally only a given local
/// tag name.
pub open spec fn node_matches(n: NodeV, tag: Option<Seq<char>>, elements_only: bool) -> bool {
    &&& (elements_only ==> n.element)
    &&& match tag {
        Some(t) => n.name == t,
        None => true,
    }
}

/// Node `i` and the nodes below it (document order) that pass the filter.
pub open spec fn desc_sel(nodes: Seq<NodeV>, i: int, tag: Option<Seq<char>>, elements_only: bool) -> Seq<int> {
    select(0, nodes.len() as int, |k: int| is_desc(nodes, k, i) && node_matches(nodes[k], tag, elements_only))
}

/// The children of node `i` (document order) that pass the filter.
pub open spec fn child_sel(nodes: Seq<NodeV>, i: int, tag: Option<Seq<char>>, elements_only: bool) -> Seq<int> {
    select(0, nodes.len() as int, |k: int| nodes[k].parent == Some(i) && node_matches(nodes[k], tag, elements_only))
}

/// The first entry of a sequence, if any.
pub open spec fn first_of(s: Seq<int>) -> Option<int> {
    if s.len() > 0 {
        Some(s[0])
    } else {
        None
    }
}

/// The value of the first attribute named `name`, if any.
pub open spec fn attr_value(attrs: Seq<(Seq<char>, Seq<char>)>, name: Seq<char>) -> Option<Seq<char>>
    decreases attrs.len(),
{
    if attrs.len() == 0 {
        None
    } else if attrs[0].0 == name {
        Some(attrs[0].1)
    } else {
        attr_value(attrs.drop_first(), name)
    }
}

/// The `Value` attribute of the first element child of `i` named `tag`
/// (`<Tag Value="..." />`).
pub open spec fn child_value(nodes: Seq<NodeV>, i: int, tag: Seq<char>) -> Option<Seq<char>> {
    match first_of(child_sel(nodes, i, Some(tag), true)) {
        Some(c) => attr_value(nodes[c].attrs, "Value"@),
        None => None,
    }
}

pub open spec fn idx_view(v: Seq<usize>) -> Seq<int> {
    v.map_values(|x: usize| x as int)
}

// ---------------------------------------------------------------------------
// Lemmas
// ---------------------------------------------------------------------------

pub proof fn lemma_desc_bounds(nodes: Seq<NodeV>, j: int, i: int)
    requires
        is_desc(nodes, j, i),
    ensures
        0 <= i <= j < nodes.len(),
    decreases j,
{
    if j != i {
        let p = nodes[j].parent->0;
        lemma_desc_bounds(nodes, p, i);
    }
}

pub proof fn lemma_desc_trans(nodes: Seq<NodeV>, a: int, b: int, c: int)
    requires
        is_desc(nodes, a, b),
        is_desc(nodes, b, c),
    ensures
        is_desc(nodes, a, c),
    decreases a,
{
    if a != b {
        let p = nodes[a].parent->0;
        lemma_desc_trans(nodes, p, b, c);
        lemma_desc_bounds(nodes, b, c);
    }
}

/// In a well-formed tree, the nodes below `i` form one contiguous block.
pub proof fn lemma_desc_contiguous(nodes: Seq<NodeV>, text_len: int, i: int, j: int, k: int)
    requires
        tree_wf(nodes, text_len),
        i <= j <= k,
        is_desc(nodes, k, i),
    ensures
        is_desc(nodes, j, i),
    decreases k - j,
{
    reveal(tree_wf);
    if j < k {
        lemma_desc_bounds(nodes, k, i);
        if k != i {
            let p = nodes[k].parent->0;
            assert(nodes[k].parent == Some(p));
            assert(is_desc(nodes, k - 1, p));
            assert(is_desc(nodes, p, i));
            lemma_desc_trans(nodes, k - 1, p, i);
            lemma_desc_contiguous(nodes, text_len, i, j, k - 1);
        }
    }
}

/// Entries of `select` are in range, satisfy the predicate and increase.
pub proof fn lemma_select_props(lo: int, hi: int, pred: spec_fn(int) -> bool)
    ensures
        select(lo, hi, pred).len() <= if hi > lo { hi - lo } else { 0 },
        forall|a: int|
            0 <= a < select(lo, hi, pred).len() ==> lo <= #[trigger] select(lo, hi, pred)[a] < hi
                && pred(select(lo, hi, pred)[a]),
        forall|a: int, b: int|
            0 <= a < b < select(lo, hi, pred).len() ==> #[trigger] select(lo, hi, pred)[a]
                < #[trigger] select(lo, hi, pred)[b],
    decreases hi - lo,
{
    if hi > lo {
        lemma_select_props(lo, hi - 1, pred);
        let s = select(lo, hi - 1, pred);
        if pred(hi - 1) {
            let t = s.push(hi - 1);
            assert(select(lo, hi, pred) == t);
            assert forall|a: int| 0 <= a < t.len() implies lo <= #[trigger] t[a] < hi && pred(t[a]) by {
                if a < s.len() {
                    assert(t[a] == s[a]);
                }
            }
            assert forall|a: int, b: int| 0 <= a < b < t.len() implies #[trigger] t[a] < #[trigger] t[b] by {
                if b < s.len() {
                    assert(t[a] == s[a] && t[b] == s[b]);
                } else {
                    assert(t[a] == s[a]);
                }
            }
        }
    }
}

/// If `pred` fails below `k` and holds at `k`, then `k` is the first entry.
pub proof fn lemma_select_prefix_first(lo: int, k: int, hi: int, pred: spec_fn(int) -> bool)
    requires
        lo <= k < hi,
        select(lo, k, pred) == Seq::<int>::empty(),
        pred(k),
    ensures
        select(lo, hi, pred).len() > 0,
        select(lo, hi, pred)[0] == k,
    decreases hi - k,
{
    if hi == k + 1 {
        assert(select(lo, hi, pred) == Seq::<int>::empty().push(k));
    } else {
        lemma_select_prefix_first(lo, k, hi - 1, pred);
        lemma_select_props(lo, hi - 1, pred);
    }
}

/// An index is listed by `select` exactly when it is in range and passes.
pub proof fn lemma_select_contains(lo: int, hi: int, pred: spec_fn(int) -> bool, x: int)
    ensures
        select(lo, hi, pred).contains(x) <==> (lo <= x < hi && pred(x)),
    decreases hi - lo,
{
    if hi > lo {
        lemma_select_contains(lo, hi - 1, pred, x);
        let s = select(lo, hi - 1, pred);
        if pred(hi - 1) {
            let t = s.push(hi - 1);
            if s.contains(x) {
                let i = choose|i: int| 0 <= i < s.len() && s[i] == x;
                assert(t[i] == x);
            }
            if t.contains(x) && x != hi - 1 {
                let i = choose|i: int| 0 <= i < t.len() && t[i] == x;
                assert(i < s.len());
                assert(s[i] == x);
            }
            if x == hi - 1 {
                assert(t[s.len() as int] == x);
            }
        }
    }
}

/// Extending the range over indices where `pred` fails changes nothing.
pub proof fn lemma_select_skip_high(lo: int, mid: int, hi: int, pred: spec_fn(int) -> bool)
    requires
        lo <= mid <= hi,
        forall|k: int| mid <= k < hi ==> !#[trigger] pred(k),
    ensures
        select(lo, hi, pred) == select(lo, mid, pred),
    decreases hi - mid,
{
    if hi > mid {
        lemma_select_skip_high(lo, mid, hi - 1, pred);
    }
}

/// Starting the range later, past indices where `pred` fails, changes nothing.
pub proof fn lemma_select_skip_low(lo: int, mid: int, hi: int, pred: spec_fn(int) -> bool)
    requires
        lo <= mid,
        forall|k: int| lo <= k < mid ==> !#[trigger] pred(k),
    ensures
        select(lo, hi, pred) == select(mid, hi, pred),
    decreases hi - lo,
{
    if hi > lo {
        if hi <= mid {
            lemma_select_skip_low(lo, mid, hi - 1, pred);
            assert(select(mid, hi, pred) == Seq::<int>::empty());
        } else {
            lemma_select_skip_low(lo, mid, hi - 1, pred);
        }
    }
}

/// `select` agrees for two predicates that agree on the range.
pub proof fn lemma_select_ext(lo: int, hi: int, p: spec_fn(int) -> bool, q: spec_fn(int) -> bool)
    requires
        forall|k: int| lo <= k < hi ==> #[trigger] p(k) == q(k),
    ensures
        select(lo, hi, p) == select(lo, hi, q),
    decreases hi - lo,
{
    if hi > lo {
        lemma_select_ext(lo, hi - 1, p, q);
    }
}


pub open spec fn desc_pred(nodes: Seq<NodeV>, i: int, tag: Option<Seq<char>>, elements_only: bool) -> spec_fn(int) -> bool {
    |k: int| is_desc(nodes, k, i) && node_matches(nodes[k], tag, elements_only)
}

pub open spec fn child_pred(nodes: Seq<NodeV>, i: int, tag: Option<Seq<char>>, elements_only: bool) -> spec_fn(int) -> bool {
    |k: int| nodes[k].parent == Some(i) && node_matches(nodes[k], tag, elements_only)
}

pub open spec fn opt_str_view(t: Option<&str>) -> Option<Seq<char>> {
    match t {
        Some(s) => Some(s@),
        None => None,
    }
}

/// Parent links point backwards for the first `m` nodes.
pub open spec fn parents_back(nodes: Seq<NodeV>, m: int) -> bool {
    &&& nodes.len() >= 1
    &&& nodes[0].parent is None
    &&& forall|j: int|
        #![trigger nodes[j].parent]
        1 <= j < m ==> match nodes[j].parent {
            Some(p) => 0 <= p < j,
            None => false,
        }
}

/// Mathematical view of an [`XmlDoc`]: the source text as UTF-8 bytes and
/// the parsed node list.
pub struct DocV {
    pub text: Seq<u8>,
    pub nodes: Seq<NodeV>,
}

/// A parsed XML document together with its source text. Its node list is
/// always a tree listed in document order (see [`tree_wf`]).
pub struct XmlDoc {
    text: Vec<u8>,
    nodes: Vec<XmlNode>,
}

impl View for XmlDoc {
    type V = DocV;

    closed spec fn view(&self) -> DocV {
        DocV { text: self.text@, nodes: nodes_view(self.nodes@) }
    }
}

proof fn lemma_not_wf_parent(v: Seq<NodeV>, tl: int, j: int)
    requires
        1 <= j < v.len(),
        !(match v[j].parent {
            Some(p) => 0 <= p < j && is_desc(v, j - 1, p),
            None => false,
        }),
    ensures
        !tree_wf(v, tl),
{
    reveal(tree_wf);
}

proof fn lemma_not_wf_range(v: Seq<NodeV>, tl: int, j: int)
    requires
        0 <= j < v.len(),
        !(0 <= v[j].start <= v[j].end <= tl),
    ensures
        !tree_wf(v, tl),
{
    reveal(tree_wf);
    let n = v[j];
    assert(tree_wf(v, tl) ==> 0 <= n.start <= n.end <= tl);
}

/// In a well-formed tree, parent links point backwards.
pub proof fn lemma_wf_parents_back(v: Seq<NodeV>, tl: int)
    requires
        tree_wf(v, tl),
    ensures
        parents_back(v, v.len() as int),
{
    reveal(tree_wf);
    assert forall|j: int| 1 <= j < v.len() implies match #[trigger] v[j].parent {
        Some(p) => 0 <= p < j,
        None => false,
    } by {
        assert(match v[j].parent {
            Some(p) => 0 <= p < j && is_desc(v, j - 1, p),
            None => false,
        });
    }
}

/// A child lies after its parent and below it.
pub proof fn lemma_child_desc(v: Seq<NodeV>, tl: int, k: int, i: int)
    requires
        tree_wf(v, tl),
        0 <= k < v.len(),
        v[k].parent == Some(i),
    ensures
        0 <= i < k,
        is_desc(v, k, i),
{
    lemma_wf_parents_back(v, tl);
    if k == 0 {
        reveal(tree_wf);
    }
    assert(match v[k].parent {
        Some(p) => 0 <= p < k,
        None => false,
    });
    assert(is_desc(v, i, i));
}

/// In a well-formed tree every byte range lies within the text.
pub proof fn lemma_wf_range(v: Seq<NodeV>, tl: int, j: int)
    requires
        tree_wf(v, tl),
        0 <= j < v.len(),
    ensures
        0 <= v[j].start <= v[j].end <= tl,
{
    reveal(tree_wf);
    let n = v[j];
    assert(0 <= n.start <= n.end <= tl);
}

/// Whether following parent links from `j` reaches `i`, for a node list
/// whose first `m` parent links point backwards.
fn desc_check(nodes: &Vec<XmlNode>, m: usize, j: usize, i: usize) -> (r: bool)
    requires
        j < m <= nodes@.len(),
        i < nodes@.len(),
        parents_back(nodes_view(nodes@), m as int),
    ensures
        r == is_desc(nodes_view(nodes@), j as int, i as int),
{
    let ghost v = nodes_view(nodes@);
    let mut k = j;
    loop
        invariant
            k <= j < m <= nodes@.len(),
            i < nodes@.len(),
            v == nodes_view(nodes@),
            parents_back(v, m as int),
            is_desc(v, j as int, i as int) == is_desc(v, k as int, i as int),
        decreases k,
    {
        assert(v[k as int] == nodes@[k as int]@);
        if k == i {
            return true;
        }
        if k < i {
            proof {
                if is_desc(v, k as int, i as int) {
                    lemma_desc_bounds(v, k as int, i as int);
                }
            }
            return false;
        }
        match nodes[k].parent {
            None => {
                return false;
            },
            Some(p) => {
                assert(k >= 1);
                assert(v[k as int].parent == Some(p as int));
                k = p;
            },
        }
    }
}

pub open spec fn opt_string_view(o: Option<String>) -> Option<Seq<char>> {
    match o {
        Some(s) => Some(s@),
        None => None,
    }
}

/// The value of the first attribute named `name`.
pub fn attr_lookup(attrs: &Vec<(String, String)>, name: &str) -> (r: Option<String>)
    ensures
        opt_string_view(r) == attr_value(attrs@.map_values(|a: (String, String)| attr_view(a)), name@),
{
    let ghost all = attrs@.map_values(|a: (String, String)| attr_view(a));
    let n = attrs.len();
    let mut k: usize = 0;
    assert(all.subrange(0, n as int) =~= all);
    while k < n
        invariant
            0 <= k <= n,
            n == attrs@.len(),
            all == attrs@.map_values(|a: (String, String)| attr_view(a)),
            attr_value(all, name@) == attr_value(all.subrange(k as int, n as int), name@),
        decreases n - k,
    {
        let ghost rest = all.subrange(k as int, n as int);
        assert(rest[0] == attr_view(attrs@[k as int]));
        if str_eq(attrs[k].0.as_str(), name) {
            return Some(attrs[k].1.clone());
        }
        assert(rest.drop_first() =~= all.subrange(k + 1, n as int));
        k = k + 1;
    }
    None
}

impl XmlDoc {
    #[verifier::type_invariant]
    closed spec fn inv(self) -> bool {
        tree_wf(nodes_view(self.nodes@), self.text@.len() as int)
    }

    /// Parses `text` into a document. Fails with `XmlParse` exactly when the
    /// XML parser rejects the text, and with `XmlStructure` exactly when the
    /// parser's node list is not a tree in document order.
    pub fn from_text(text: &str) -> (res: Result<XmlDoc, AlsError>)
        ensures
            match res {
                Ok(d) => xml_parsed(text@) == Some(d@.nodes) && d@.text == text.spec_bytes()
                    && tree_wf(d@.nodes, d@.text.len() as int),
                Err(AlsError::XmlParse(_)) => xml_parsed(text@) is None,
                Err(AlsError::XmlStructure) => xml_parsed(text@) matches Some(ns) && !tree_wf(
                    ns,
                    text.spec_bytes().len() as int,
                ),
                Err(_) => false,
            },
    {
        let nodes = match parse_xml_nodes(text) {
            Ok(n) => n,
            Err(msg) => {
                return Err(AlsError::XmlParse(msg));
            },
        };
        let bytes = vstd::slice::slice_to_vec(text.as_bytes());
        let ghost v = nodes_view(nodes@);
        let ghost tl = bytes@.len() as int;
        let n = nodes.len();
        if n == 0 {
            proof {
                reveal(tree_wf);
            }
            return Err(AlsError::XmlStructure);
        }
        assert(v[0] == nodes@[0]@);
        if nodes[0].parent.is_some() {
            proof {
                reveal(tree_wf);
            }
            return Err(AlsError::XmlStructure);
        }
        let mut j: usize = 1;
        while j < n
            invariant
                1 <= j <= n,
                n == nodes@.len(),
                v == nodes_view(nodes@),
                tl == bytes@.len(),
                bytes@ == text.spec_bytes(),
                xml_parsed(text@) == Some(v),
                parents_back(v, j as int),
                forall|k: int|
                    #![trigger v[k].parent]
                    1 <= k < j ==> match v[k].parent {
                        Some(p) => 0 <= p < k && is_desc(v, k - 1, p),
                        None => false,
                    },
            decreases n - j,
        {
            assert(v[j as int] == nodes@[j as int]@);
            match nodes[j].parent {
                None => {
                    proof {
                        lemma_not_wf_parent(v, tl, j as int);
                    }
                    return Err(AlsError::XmlStructure);
                },
                Some(p) => {
                    if p >= j {
                        proof {
                            lemma_not_wf_parent(v, tl, j as int);
                        }
                        return Err(AlsError::XmlStructure);
                    }
                    if !desc_check(&nodes, j, j - 1, p) {
                        proof {
                            lemma_not_wf_parent(v, tl, j as int);
                        }
                        return Err(AlsError::XmlStructure);
                    }
                },
            }
            j = j + 1;
        }
        let mut j: usize = 0;
        while j < n
            invariant
                0 <= j <= n,
                n == nodes@.len(),
                v == nodes_view(nodes@),
                tl == bytes@.len(),
                bytes@ == text.spec_bytes(),
                xml_parsed(text@) == Some(v),
                forall|k: int|
                    #![trigger v[k].parent]
                    1 <= k < n ==> match v[k].parent {
                        Some(p) => 0 <= p < k && is_desc(v, k - 1, p),
                        None => false,
                    },
                v[0].parent is None,
                forall|k: int|
                    #![trigger v[k].start]
                    0 <= k < j ==> 0 <= v[k].start <= v[k].end <= tl,
            decreases n - j,
        {
            assert(v[j as int] == nodes@[j as int]@);
            if !(nodes[j].start <= nodes[j].end && nodes[j].end <= bytes.len()) {
                proof {
                    lemma_not_wf_range(v, tl, j as int);
                }
                return Err(AlsError::XmlStructure);
            }
            j = j + 1;
        }
        proof {
            reveal(tree_wf);
        }
        Ok(XmlDoc { text: bytes, nodes })
    }

    /// The number of nodes (the root included).
    pub fn node_count(&self) -> (r: usize)
        ensures
            r == self@.nodes.len(),
            r >= 1,
            tree_wf(self@.nodes, self@.text.len() as int),
    {
        proof {
            use_type_invariant(self);
            reveal(tree_wf);
        }
        self.nodes.len()
    }

    /// Node `i`.
    pub fn node(&self, i: usize) -> (r: &XmlNode)
        requires
            i < self@.nodes.len(),
        ensures
            r@ == self@.nodes[i as int],
            tree_wf(self@.nodes, self@.text.len() as int),
    {
        proof {
            use_type_invariant(self);
        }
        &self.nodes[i]
    }

    /// The source text as UTF-8 bytes.
    pub fn text(&self) -> (r: &Vec<u8>)
        ensures
            r@ == self@.text,
            tree_wf(self@.nodes, self@.text.len() as int),
    {
        proof {
            use_type_invariant(self);
        }
        &self.text
    }

    /// Whether node `j` is node `i` or lies below it.
    pub fn is_desc(&self, j: usize, i: usize) -> (r: bool)
        requires
            j < self@.nodes.len(),
            i < self@.nodes.len(),
        ensures
            r == is_desc(self@.nodes, j as int, i as int),
    {
        proof {
            use_type_invariant(self);
            lemma_wf_parents_back(self@.nodes, self@.text.len() as int);
        }
        desc_check(&self.nodes, self.nodes.len(), j, i)
    }

    fn matches(&self, k: usize, tag: Option<&str>, elements_only: bool) -> (r: bool)
        requires
            k < self@.nodes.len(),
        ensures
            r == node_matches(self@.nodes[k as int], opt_str_view(tag), elements_only),
    {
        let n = &self.nodes[k];
        assert(self@.nodes[k as int] == n@);
        if elements_only && !n.element {
            return false;
        }
        match tag {
            Some(t) => str_eq(n.name.as_str(), t),
            None => true,
        }
    }

    /// Node `i` and the nodes below it, in document order, that pass the
    /// filter (`tag`: only that local name; `elements_only`: only elements).
    pub fn desc_select(&self, i: usize, tag: Option<&str>, elements_only: bool) -> (r: Vec<usize>)
        requires
            i < self@.nodes.len(),
        ensures
            idx_view(r@) == desc_sel(self@.nodes, i as int, opt_str_view(tag), elements_only),
    {
        proof {
            use_type_invariant(self);
        }
        let ghost v = self@.nodes;
        let ghost tl = self@.text.len() as int;
        let ghost pred = desc_pred(v, i as int, opt_str_view(tag), elements_only);
        let n = self.nodes.len();
        let mut res: Vec<usize> = Vec::new();
        proof {
            assert forall|k: int| 0 <= k < i implies !#[trigger] pred(k) by {
                if is_desc(v, k, i as int) {
                    lemma_desc_bounds(v, k, i as int);
                }
            }
            lemma_select_skip_low(0, i as int, i as int, pred);
            assert(idx_view(res@) =~= select(0, i as int, pred));
        }
        let mut k = i;
        while k < n
            invariant
                i <= k <= n,
                n == v.len(),
                v == self@.nodes,
                tl == self@.text.len(),
                tree_wf(v, tl),
                pred == desc_pred(v, i as int, opt_str_view(tag), elements_only),
                idx_view(res@) == select(0, k as int, pred),
            decreases n - k,
        {
            if !self.is_desc(k, i) {
                proof {
                    assert forall|m: int| k <= m < n implies !#[trigger] pred(m) by {
                        if is_desc(v, m, i as int) {
                            lemma_desc_contiguous(v, tl, i as int, k as int, m);
                        }
                    }
                    lemma_select_skip_high(0, k as int, n as int, pred);
                }
                return res;
            }
            if self.matches(k, tag, elements_only) {
                res.push(k);
                assert(idx_view(res@) =~= select(0, k as int, pred).push(k as int));
            }
            k = k + 1;
        }
        res
    }

    /// The children of node `i`, in document order, that pass the filter.
    pub fn child_select(&self, i: usize, tag: Option<&str>, elements_only: bool) -> (r: Vec<usize>)
        requires
            i < self@.nodes.len(),
        ensures
            idx_view(r@) == child_sel(self@.nodes, i as int, opt_str_view(tag), elements_only),
    {
        proof {
            use_type_invariant(self);
        }
        let ghost v = self@.nodes;
        let ghost tl = self@.text.len() as int;
        let ghost pred = child_pred(v, i as int, opt_str_view(tag), elements_only);
        let n = self.nodes.len();
        let mut res: Vec<usize> = Vec::new();
        proof {
            assert forall|k: int| 0 <= k < i + 1 implies !#[trigger] pred(k) by {
                if v[k].parent == Some(i as int) {
                    lemma_child_desc(v, tl, k, i as int);
                }
            }
            lemma_select_skip_low(0, i + 1, i + 1, pred);
            assert(idx_view(res@) =~= select(0, i + 1, pred));
        }
        let mut k = i + 1;
        while k < n
            invariant
                i < k <= n,
                n == v.len(),
                v == self@.nodes,
                tl == self@.text.len(),
                tree_wf(v, tl),
                pred == child_pred(v, i as int, opt_str_view(tag), elements_only),
                idx_view(res@) == select(0, k as int, pred),
            decreases n - k,
        {
            if !self.is_desc(k, i) {
                proof {
                    assert forall|m: int| k <= m < n implies !#[trigger] pred(m) by {
                        if v[m].parent == Some(i as int) {
                            lemma_child_desc(v, tl, m, i as int);
                            lemma_desc_contiguous(v, tl, i as int, k as int, m);
                        }
                    }
                    lemma_select_skip_high(0, k as int, n as int, pred);
                }
                return res;
            }
            assert(v[k as int] == self.nodes@[k as int]@);
            let is_child = match self.nodes[k].parent {
                Some(p) => p == i,
                None => false,
            };
            if is_child && self.matches(k, tag, elements_only) {
                res.push(k);
                assert(idx_view(res@) =~= select(0, k as int, pred).push(k as int));
            }
            k = k + 1;
        }
        res
    }

    /// The value of node `i`'s first attribute named `name`.
    pub fn attribute(&self, i: usize, name: &str) -> (r: Option<String>)
        requires
            i < self@.nodes.len(),
        ensures
            opt_string_view(r) == attr_value(self@.nodes[i as int].attrs, name@),
    {
        assert(self@.nodes[i as int] == self.nodes@[i as int]@);
        attr_lookup(&self.nodes[i].attrs, name)
    }

    /// The `Value` attribute of node `i`'s first element child named `tag`.
    pub fn child_value(&self, i: usize, tag: &str) -> (r: Option<String>)
        requires
            i < self@.nodes.len(),
        ensures
            opt_string_view(r) == child_value(self@.nodes, i as int, tag@),
    {
        let kids = self.child_select(i, Some(tag), true);
        if kids.len() == 0 {
            return None;
        }
        proof {
            lemma_select_props(0, self@.nodes.len() as int, child_pred(self@.nodes, i as int, Some(tag@), true));
            assert(idx_view(kids@)[0] == kids@[0] as int);
        }
        self.attribute(kids[0], "Value")
    }
}

/// The first child of node `i` whose local name is `tag`.
pub open spec fn first_child_named(nodes: Seq<NodeV>, i: int, tag: Seq<char>) -> Option<int> {
    first_of(child_sel(nodes, i, Some(tag), false))
}

/// Node `i` or the first node below it whose local name is `tag`.
pub open spec fn first_desc_named(nodes: Seq<NodeV>, i: int, tag: Seq<char>) -> Option<int> {
    first_of(desc_sel(nodes, i, Some(tag), false))
}

/// The first child of node `i` whose local name is `tag`.
pub fn first_child_named_exec(doc: &XmlDoc, i: usize, tag: &str) -> (r: Option<usize>)
    requires
        i < doc@.nodes.len(),
    ensures
        match r {
            Some(k) => first_child_named(doc@.nodes, i as int, tag@) == Some(k as int) && k < doc@.nodes.len(),
            None => first_child_named(doc@.nodes, i as int, tag@) is None,
        },
{
    let kids = doc.child_select(i, Some(tag), false);
    if kids.len() == 0 {
        None
    } else {
        proof {
            lemma_select_props(0, doc@.nodes.len() as int, child_pred(doc@.nodes, i as int, Some(tag@), false));
            assert(idx_view(kids@)[0] == kids@[0] as int);
        }
        Some(kids[0])
    }
}

/// Node `i` or the first node below it whose local name is `tag`.
pub fn first_desc_named_exec(doc: &XmlDoc, i: usize, tag: &str) -> (r: Option<usize>)
    requires
        i < doc@.nodes.len(),
    ensures
        match r {
            Some(k) => first_desc_named(doc@.nodes, i as int, tag@) == Some(k as int) && k < doc@.nodes.len(),
            None => first_desc_named(doc@.nodes, i as int, tag@) is None,
        },
{
    let found = doc.desc_select(i, Some(tag), false);
    if found.len() == 0 {
        None
    } else {
        proof {
            lemma_select_props(0, doc@.nodes.len() as int, desc_pred(doc@.nodes, i as int, Some(tag@), false));
            assert(idx_view(found@)[0] == found@[0] as int);
        }
        Some(found[0])
    }
}

} // verus!
