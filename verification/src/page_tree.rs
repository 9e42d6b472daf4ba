//! Page tree navigation: the attributes a page inherits from the nodes
//! above it, the number of pages under each kid of a node, and which kid
//! holds a page of a given index.

use vstd::prelude::*;
use crate::error::{ParseError, ParseResult};
use crate::objects::{ObjectView, PdfDictionary, PdfObject, copy_object, dict_get, dict_insert, entries_view, lemma_dict_insert_get, object_view};

verus! {

/// The entries `m` after taking over the node's value for key `k`, unless
/// `m` has that key already.
pub open spec fn inherit_key(
    m: Seq<(Seq<char>, ObjectView)>,
    node: Seq<(Seq<char>, ObjectView)>,
    k: Seq<char>,
) -> Seq<(Seq<char>, ObjectView)> {
    match dict_get(node, k) {
        Some(v) => if dict_get(m, k) is Some {
            m
        } else {
            dict_insert(m, k, v)
        },
        None => m,
    }
}

/// The inherited attributes passed on below a page tree node: those
/// inherited so far, then each of Resources, MediaBox, CropBox and Rotate
/// of the node that was not inherited already.
pub open spec fn merged_attributes(
    node: Seq<(Seq<char>, ObjectView)>,
    inherited: Seq<(Seq<char>, ObjectView)>,
) -> Seq<(Seq<char>, ObjectView)> {
    inherit_key(
        inherit_key(inherit_key(inherit_key(inherited, node, "Resources"@), node, "MediaBox"@), node, "CropBox"@),
        node,
        "Rotate"@,
    )
}

/// Whether `k` is one of the attributes a page inherits from the nodes
/// above it: Resources, MediaBox, CropBox or Rotate.
pub open spec fn is_inheritable_key(k: Seq<char>) -> bool {
    k == "Resources"@ || k == "MediaBox"@ || k == "CropBox"@ || k == "Rotate"@
}

/// What taking over one key gives for any key `k`.
proof fn lemma_inherit_key_get(
    m: Seq<(Seq<char>, ObjectView)>,
    node: Seq<(Seq<char>, ObjectView)>,
    key: Seq<char>,
    k: Seq<char>,
)
    ensures
        dict_get(inherit_key(m, node, key), k) == (if k == key && dict_get(m, k) is None {
            dict_get(node, k)
        } else {
            dict_get(m, k)
        }),
{
    match dict_get(node, key) {
        Some(v) => {
            lemma_dict_insert_get(m, key, v, k);
        },
        None => {},
    }
}

/// The attributes passed on below a node: for each of Resources, MediaBox,
/// CropBox and Rotate, the value inherited from above when there is one,
/// else the node's own value (so a key the node has is never lost); every
/// other key keeps exactly its inherited value.
pub proof fn lemma_merged_attributes(
    node: Seq<(Seq<char>, ObjectView)>,
    inherited: Seq<(Seq<char>, ObjectView)>,
    k: Seq<char>,
)
    ensures
        is_inheritable_key(k) ==> dict_get(merged_attributes(node, inherited), k) == (if dict_get(inherited, k) is Some {
            dict_get(inherited, k)
        } else {
            dict_get(node, k)
        }),
        is_inheritable_key(k) && dict_get(node, k) is Some ==> dict_get(merged_attributes(node, inherited), k) is Some,
        !is_inheritable_key(k) ==> dict_get(merged_attributes(node, inherited), k) == dict_get(inherited, k),
{
    reveal_strlit("Resources");
    reveal_strlit("MediaBox");
    reveal_strlit("CropBox");
    reveal_strlit("Rotate");
    assert("Resources"@.len() == 9);
    assert("MediaBox"@.len() == 8);
    assert("CropBox"@.len() == 7);
    assert("Rotate"@.len() == 6);
    let m1 = inherit_key(inherited, node, "Resources"@);
    let m2 = inherit_key(m1, node, "MediaBox"@);
    let m3 = inherit_key(m2, node, "CropBox"@);
    lemma_inherit_key_get(inherited, node, "Resources"@, k);
    lemma_inherit_key_get(m1, node, "MediaBox"@, k);
    lemma_inherit_key_get(m2, node, "CropBox"@, k);
    lemma_inherit_key_get(m3, node, "Rotate"@, k);
}

/// The entries of an optional dictionary (none when absent).
pub open spec fn opt_entries(d: Option<&PdfDictionary>) -> Seq<(Seq<char>, ObjectView)> {
    match d {
        Some(x) => entries_view(x.0@),
        None => Seq::empty(),
    }
}

/// Take over the node's value for `key` unless `merged` has the key.
fn inherit_from(merged: &mut PdfDictionary, node: &PdfDictionary, key: &str)
    ensures
        entries_view(final(merged).0@) == inherit_key(entries_view(old(merged).0@), entries_view(node.0@), key@),
{
    match node.get(key) {
        Some(value) => {
            if !merged.contains_key(key) {
                merged.insert(String::from_str(key), copy_object(value));
            }
        },
        None => {},
    }
}

/// The attributes inherited below `node`: a value inherited from further
/// up wins over the node's own for Resources, MediaBox, CropBox and
/// Rotate; the other inherited entries stay as they are.
pub fn merge_inherited(node: &PdfDictionary, inherited: Option<&PdfDictionary>) -> (m: PdfDictionary)
    ensures
        entries_view(m.0@) == merged_attributes(entries_view(node.0@), opt_entries(inherited)),
        forall|k: Seq<char>| is_inheritable_key(k) ==> #[trigger] dict_get(entries_view(m.0@), k) == (if dict_get(opt_entries(inherited), k) is Some {
            dict_get(opt_entries(inherited), k)
        } else {
            dict_get(entries_view(node.0@), k)
        }),
{
    proof {
        assert forall|k: Seq<char>| is_inheritable_key(k) implies #[trigger] dict_get(merged_attributes(entries_view(node.0@), opt_entries(inherited)), k) == (if dict_get(opt_entries(inherited), k) is Some {
            dict_get(opt_entries(inherited), k)
        } else {
            dict_get(entries_view(node.0@), k)
        }) by {
            lemma_merged_attributes(entries_view(node.0@), opt_entries(inherited), k);
        }
    }
    let mut merged = match inherited {
        Some(d) => d.copy(),
        None => PdfDictionary::new(),
    };
    inherit_from(&mut merged, node, "Resources");
    inherit_from(&mut merged, node, "MediaBox");
    inherit_from(&mut merged, node, "CropBox");
    inherit_from(&mut merged, node, "Rotate");
    merged
}

/// The number of pages under a kid of a page tree node: its Count for a
/// `Pages` node, 1 for any other type; the key that is missing otherwise.
pub open spec fn kid_count_spec(d: Seq<(Seq<char>, ObjectView)>) -> Result<u32, Seq<char>> {
    match dict_get(d, "Type"@) {
        Some(ObjectView::Name(t)) => if t == "Pages"@ {
            match dict_get(d, "Count"@) {
                Some(ObjectView::Integer(n)) => Ok(n as u32),
                _ => Err("Count"@),
            }
        } else {
            Ok(1)
        },
        _ => Err("Type"@),
    }
}

/// The number of pages under a kid: Count for a `Pages` node, else 1.
/// A kid without a Type name, or a `Pages` kid without an integer Count,
/// is a missing-key error.
pub fn kid_count(kid: &PdfDictionary) -> (r: ParseResult<u32>)
    ensures
        match kid_count_spec(entries_view(kid.0@)) {
            Ok(n) => r == Ok::<u32, ParseError>(n),
            Err(k) => r matches Err(ParseError::MissingKey(key)) && key@ == k,
        },
{
    let kid_type = match kid.get_type() {
        Some(t) => t,
        None => {
            return Err(ParseError::MissingKey(String::from_str("Type")));
        },
    };
    if crate::text::str_eq(kid_type, "Pages") {
        match kid.get("Count") {
            Some(PdfObject::Integer(n)) => Ok(*n as u32),
            _ => Err(ParseError::MissingKey(String::from_str("Count"))),
        }
    } else {
        Ok(1)
    }
}

/// The number of pages under the first `k` kids.
pub open spec fn pages_before(counts: Seq<u32>, k: int) -> int
    decreases k,
{
    if k <= 0 {
        0
    } else {
        pages_before(counts, k - 1) + counts[k - 1]
    }
}

proof fn lemma_pages_before_mono(counts: Seq<u32>, a: int, b: int)
    requires
        0 <= a <= b,
    ensures
        pages_before(counts, a) <= pages_before(counts, b),
    decreases b - a,
{
    if a < b {
        lemma_pages_before_mono(counts, a, b - 1);
    }
}

/// The kid that holds the page of index `target`, given the page counts
/// of the kids, and the page's index within that kid: the kid `k` with
/// `pages_before(k) <= target < pages_before(k + 1)`; `None` when the
/// kids hold no more than `target` pages.
pub fn select_kid(counts: &Vec<u32>, target: u32) -> (r: Option<(usize, u32)>)
    ensures
        match r {
            Some((k, i)) => k < counts@.len() && pages_before(counts@, k as int) <= target < pages_before(
                counts@,
                k + 1,
            ) && i == target - pages_before(counts@, k as int),
            None => target >= pages_before(counts@, counts@.len() as int),
        },
        r is None <==> target >= pages_before(counts@, counts@.len() as int),
{
    let mut current: u64 = 0;
    let mut k: usize = 0;
    while k < counts.len()
        invariant
            k <= counts@.len(),
            current == pages_before(counts@, k as int),
            current <= target,
        decreases counts.len() - k,
    {
        let next = current + counts[k] as u64;
        if (target as u64) < next {
            proof {
                lemma_pages_before_mono(counts@, k + 1, counts@.len() as int);
            }
            return Some((k, (target as u64 - current) as u32));
        }
        current = next;
        k = k + 1;
    }
    None
}

} // verus!

verus! {

/// The kind of a page tree node.
#[derive(Debug, Clone, Copy, PartialEq, Eq, Structural)]
pub enum PageNode {
    /// An intermediate node, with a Kids array to descend into
    Pages,
    /// The page looked for
    Page,
}

/// Why a page tree node was refused: a missing key, or a syntax error (at
/// position 0), with its text.
pub enum PageNodeFailure {
    /// `ParseError::MissingKey` with this key
    Missing(Seq<char>),
    /// `ParseError::SyntaxError` at position 0 with this message
    Syntax(Seq<char>),
}

/// What a node is when the page of index `target` within it is looked
/// for: a `Pages` node needs a Kids array; a `Page` node must be the page
/// of index 0; any other type is refused.
pub open spec fn page_node_spec(d: Seq<(Seq<char>, ObjectView)>, target: u32) -> Result<PageNode, PageNodeFailure> {
    match dict_get(d, "Type"@) {
        Some(ObjectView::Name(t)) => if t == "Pages"@ {
            match dict_get(d, "Kids"@) {
                Some(ObjectView::Array(_)) => Ok(PageNode::Pages),
                _ => Err(PageNodeFailure::Missing("Kids"@)),
            }
        } else if t == "Page"@ {
            if target != 0 {
                Err(PageNodeFailure::Syntax("Page index mismatch"@))
            } else {
                Ok(PageNode::Page)
            }
        } else {
            Err(PageNodeFailure::Syntax("Invalid page tree node type: "@ + t))
        },
        _ => Err(PageNodeFailure::Missing("Type"@)),
    }
}

/// Whether `e` is the error that `f` describes.
pub open spec fn is_node_failure(e: ParseError, f: PageNodeFailure) -> bool {
    match f {
        PageNodeFailure::Missing(k) => e matches ParseError::MissingKey(key) && key@ == k,
        PageNodeFailure::Syntax(m) => e matches ParseError::SyntaxError { position, message } && position
            == 0 && message@ == m,
    }
}

/// One step of the walk down the page tree: what `node` is when the page
/// of index `target` within it is looked for.
pub fn page_node(node: &PdfDictionary, target: u32) -> (r: ParseResult<PageNode>)
    ensures
        match page_node_spec(entries_view(node.0@), target) {
            Ok(k) => r == Ok::<PageNode, ParseError>(k),
            Err(f) => r matches Err(e) && is_node_failure(e, f),
        },
{
    let node_type = match node.get_type() {
        Some(t) => t,
        None => {
            return Err(ParseError::MissingKey(String::from_str("Type")));
        },
    };
    if crate::text::str_eq(node_type, "Pages") {
        match node.get("Kids") {
            Some(PdfObject::Array(_)) => Ok(PageNode::Pages),
            _ => Err(ParseError::MissingKey(String::from_str("Kids"))),
        }
    } else if crate::text::str_eq(node_type, "Page") {
        if target != 0 {
            Err(ParseError::SyntaxError { position: 0, message: String::from_str("Page index mismatch") })
        } else {
            Ok(PageNode::Page)
        }
    } else {
        Err(
            ParseError::SyntaxError {
                position: 0,
                message: crate::text::concat_str("Invalid page tree node type: ", node_type),
            },
        )
    }
}

/// The error when no kid of a node holds the page looked for.
pub fn page_not_found() -> (e: ParseError)
    ensures
        e matches ParseError::SyntaxError { position, message } && position == 0 && message@
            == "Page not found in tree"@,
{
    ParseError::SyntaxError { position: 0, message: String::from_str("Page not found in tree") }
}

} // verus!
