//! The document as a flat list of nodes, and the boundary to the XML parser.
//!
//! A parsed document is held as its nodes in document order, each with its
//! tag name, its attributes, and the number of nodes in its subtree. The
//! descendants of a node are then the nodes that follow it within that
//! number, so every walk over the tree is a walk over a stretch of the list.
//!
//! Before a text goes to the parser, a scan of its bytes follows the
//! parser's tokens and counts how many elements are open at a time; a text
//! that nests deeper than `MAX_NESTING` is refused and never parsed.

use vstd::prelude::*;

verus! {

/// What a node says, as plain text.
pub struct NodeText {
    pub tag: Seq<char>,
    pub attributes: Seq<(Seq<char>, Seq<char>)>,
    pub span: nat,
}

/// One node of a document: its local tag name (empty unless the node is an
/// element), its attributes as pairs of local name and value in document
/// order, and the size of its subtree, the node itself included.
#[derive(Debug, Clone, PartialEq, Eq)]
pub struct XmlNode {
    pub tag: String,
    pub attributes: Vec<(String, String)>,
    pub span: usize,
}

impl View for XmlNode {
    type V = NodeText;

    open spec fn view(&self) -> NodeText {
        NodeText {
            tag: self.tag@,
            attributes: self.attributes@.map_values(|a: (String, String)| (a.0@, a.1@)),
            span: self.span as nat,
        }
    }
}

/// The texts of a list of nodes.
pub open spec fn tree_text(nodes: Seq<XmlNode>) -> Seq<NodeText> {
    nodes.map_values(|n: XmlNode| n@)
}

/// What the XML parser makes of a text: the nodes from the root element to
/// the end of its subtree, in document order, or its diagnostic where the
/// text is not a well-formed document.
pub uninterp spec fn document_tree(text: Seq<char>) -> Result<Seq<NodeText>, Seq<char>>;

/// Parses `text` with `roxmltree::Document::parse` and copies out, for the
/// root element and every node below it in document order, the local tag
/// name, the attributes and the number of nodes in the subtree; an error is
/// copied out as the parser words it. The parser calls itself once for every
/// element that is open at a time, so the text must be shallow. The claim is
/// only that the outcome depends on the text alone.
#[verifier::external_body]
fn parse_tree(text: &str) -> (r: Result<Vec<XmlNode>, String>)
    requires
        shallow(text@),
    ensures
        match r {
            Ok(nodes) => document_tree(text@) == Ok::<Seq<NodeText>, Seq<char>>(tree_text(nodes@)),
            Err(diagnostic) => document_tree(text@) == Err::<Seq<NodeText>, Seq<char>>(
                diagnostic@,
            ),
        },
{
    let doc = roxmltree::Document::parse(text).map_err(|e| e.to_string())?;
    let copy = |n: roxmltree::Node| XmlNode {
        tag: n.tag_name().name().to_string(),
        attributes: n.attributes().map(|a| (a.name().to_string(), a.value().to_string())).collect(),
        span: n.descendants().len(),
    };
    Ok(doc.root_element().descendants().map(copy).collect())
}

/// The most elements that may be open at a time in a document that is read.
/// The parser calls itself for every open element and spends about fifteen
/// kilobytes of stack on each; the limit lets it use one megabyte, half of
/// the stack that a thread gets by default, and leaves the rest to the
/// caller.
pub const MAX_NESTING: usize = 64;

/// Where a scan of the text stands: in character data, inside a start tag,
/// inside a quoted attribute value, inside a comment, a character-data
/// section or a processing instruction, or inside markup that ends with the
/// next `>` (an end tag, or a declaration).
#[derive(Clone, Copy, PartialEq, Eq, Debug)]
pub enum Mode {
    Content,
    Tag,
    Quoted,
    Comment,
    CData,
    Instruction,
    Skip,
}

/// The state of a scan: where it stands, how many bytes of the opener of
/// the markup it is in are still to come, the quote that ends the value it
/// is in, whether the last character of the tag was a slash, how many
/// elements are open, and the most that were open at a time.
pub struct Scan {
    pub mode: Mode,
    pub wait: nat,
    pub quote: u8,
    pub slash: bool,
    pub depth: nat,
    pub deepest: nat,
}

/// The byte at position `i`, or zero beyond the end.
pub open spec fn byte_at(bytes: Seq<u8>, i: int) -> u8 {
    if 0 <= i < bytes.len() {
        bytes[i]
    } else {
        0
    }
}

/// Whether a character-data section opens at position `i`.
pub open spec fn cdata_at(bytes: Seq<u8>, i: int) -> bool {
    &&& byte_at(bytes, i + 2) == 0x5B
    &&& byte_at(bytes, i + 3) == 0x43
    &&& byte_at(bytes, i + 4) == 0x44
    &&& byte_at(bytes, i + 5) == 0x41
    &&& byte_at(bytes, i + 6) == 0x54
    &&& byte_at(bytes, i + 7) == 0x41
    &&& byte_at(bytes, i + 8) == 0x5B
}

/// One less, but never below zero.
pub open spec fn less_one(n: nat) -> nat {
    if n > 0 {
        (n - 1) as nat
    } else {
        0
    }
}

/// The scan after the byte at position `i`. A `<` in character data opens a
/// comment, a section, an instruction, an end tag (one element fewer is
/// open) or a start tag (one more is open). The bytes of an opener are
/// passed over before the end of its markup is looked for, so no byte of an
/// opener counts towards a terminator. A start tag ends at the first `>`
/// outside a quoted value, and where a slash stands before that `>` the
/// element is closed again at once.
pub open spec fn step(bytes: Seq<u8>, i: int, scan: Scan) -> Scan {
    let c = byte_at(bytes, i);
    match scan.mode {
        Mode::Content => {
            if c != 0x3C {
                scan
            } else if byte_at(bytes, i + 1) == 0x21 {
                if byte_at(bytes, i + 2) == 0x2D && byte_at(bytes, i + 3) == 0x2D {
                    Scan { mode: Mode::Comment, wait: 3, ..scan }
                } else if cdata_at(bytes, i) {
                    Scan { mode: Mode::CData, wait: 8, ..scan }
                } else {
                    Scan { mode: Mode::Skip, wait: 1, ..scan }
                }
            } else if byte_at(bytes, i + 1) == 0x3F {
                Scan { mode: Mode::Instruction, wait: 1, ..scan }
            } else if byte_at(bytes, i + 1) == 0x2F {
                Scan { mode: Mode::Skip, wait: 1, depth: less_one(scan.depth), ..scan }
            } else {
                Scan {
                    mode: Mode::Tag,
                    slash: false,
                    depth: scan.depth + 1,
                    deepest: if scan.depth + 1 > scan.deepest {
                        scan.depth + 1
                    } else {
                        scan.deepest
                    },
                    ..scan
                }
            }
        },
        Mode::Tag => {
            if c == 0x22 || c == 0x27 {
                Scan { mode: Mode::Quoted, quote: c, ..scan }
            } else if c == 0x3E {
                Scan {
                    mode: Mode::Content,
                    depth: if scan.slash {
                        less_one(scan.depth)
                    } else {
                        scan.depth
                    },
                    ..scan
                }
            } else {
                Scan { slash: c == 0x2F, ..scan }
            }
        },
        Mode::Quoted => {
            if c == scan.quote {
                Scan { mode: Mode::Tag, slash: false, ..scan }
            } else {
                scan
            }
        },
        Mode::Comment => {
            if scan.wait > 0 {
                Scan { wait: (scan.wait - 1) as nat, ..scan }
            } else if c == 0x2D && byte_at(bytes, i + 1) == 0x2D && byte_at(bytes, i + 2) == 0x3E {
                Scan { mode: Mode::Content, ..scan }
            } else {
                scan
            }
        },
        Mode::CData => {
            if scan.wait > 0 {
                Scan { wait: (scan.wait - 1) as nat, ..scan }
            } else if c == 0x5D && byte_at(bytes, i + 1) == 0x5D && byte_at(bytes, i + 2) == 0x3E {
                Scan { mode: Mode::Content, ..scan }
            } else {
                scan
            }
        },
        Mode::Instruction => {
            if scan.wait > 0 {
                Scan { wait: (scan.wait - 1) as nat, ..scan }
            } else if c == 0x3F && byte_at(bytes, i + 1) == 0x3E {
                Scan { mode: Mode::Content, ..scan }
            } else {
                scan
            }
        },
        Mode::Skip => {
            if scan.wait > 0 {
                Scan { wait: (scan.wait - 1) as nat, ..scan }
            } else if c == 0x3E {
                Scan { mode: Mode::Content, ..scan }
            } else {
                scan
            }
        },
    }
}

/// The most elements that are open at a time from position `i` on, for a
/// scan that stands at `scan` there.
pub open spec fn deepest_from(bytes: Seq<u8>, i: int, scan: Scan) -> nat
    decreases bytes.len() - i,
{
    if i < 0 || i >= bytes.len() {
        scan.deepest
    } else {
        deepest_from(bytes, i + 1, step(bytes, i, scan))
    }
}

/// The most elements that are open at a time in a text, by a scan of its
/// bytes that starts in character data with nothing open.
pub open spec fn nesting(text: Seq<char>) -> nat {
    deepest_from(
        vstd::utf8::encode_utf8(text),
        0,
        Scan { mode: Mode::Content, wait: 0, quote: 0, slash: false, depth: 0, deepest: 0 },
    )
}

/// Whether a text is shallow enough to be read.
pub open spec fn shallow(text: Seq<char>) -> bool {
    nesting(text) <= MAX_NESTING
}

/// Whether `text` is shallow enough to be read.
pub fn is_shallow(text: &str) -> (ok: bool)
    ensures
        ok == shallow(text@),
{
    let bytes = text.as_bytes();
    let len: usize = bytes.len();
    let mut mode = Mode::Content;
    let mut wait: usize = 0;
    let mut quote: u8 = 0;
    let mut slash = false;
    let mut depth: usize = 0;
    let mut deepest: usize = 0;
    let mut i: usize = 0;
    let ghost mut scan = Scan { mode: Mode::Content, wait: 0, quote: 0, slash: false, depth: 0, deepest: 0 };
    while i < len
        invariant
            i <= len,
            len == bytes@.len(),
            bytes@ == vstd::utf8::encode_utf8(text@),
            scan.mode == mode,
            scan.wait == wait,
            scan.quote == quote,
            scan.slash == slash,
            scan.depth == depth,
            scan.deepest == deepest,
            depth <= i,
            deepest <= i,
            deepest_from(bytes@, i as int, scan) == nesting(text@),
        decreases len - i,
    {
        let c: u8 = bytes[i];
        let c1: u8 = if len - i > 1 { bytes[i + 1] } else { 0 };
        let c2: u8 = if len - i > 2 { bytes[i + 2] } else { 0 };
        let c3: u8 = if len - i > 3 { bytes[i + 3] } else { 0 };
        proof {
            scan = step(bytes@, i as int, scan);
        }
        match mode {
            Mode::Content => {
                if c == 0x3C {
                    if c1 == 0x21 {
                        if c2 == 0x2D && c3 == 0x2D {
                            mode = Mode::Comment;
                            wait = 3;
                        } else if len - i > 8 && c2 == 0x5B && c3 == 0x43 && bytes[i + 4] == 0x44
                            && bytes[i + 5] == 0x41 && bytes[i + 6] == 0x54 && bytes[i + 7] == 0x41
                            && bytes[i + 8] == 0x5B {
                            mode = Mode::CData;
                            wait = 8;
                        } else {
                            mode = Mode::Skip;
                            wait = 1;
                        }
                    } else if c1 == 0x3F {
                        mode = Mode::Instruction;
                        wait = 1;
                    } else if c1 == 0x2F {
                        mode = Mode::Skip;
                        wait = 1;
                        if depth > 0 {
                            depth = depth - 1;
                        }
                    } else {
                        mode = Mode::Tag;
                        slash = false;
                        depth = depth + 1;
                        if depth > deepest {
                            deepest = depth;
                        }
                    }
                }
            },
            Mode::Tag => {
                if c == 0x22 || c == 0x27 {
                    mode = Mode::Quoted;
                    quote = c;
                } else if c == 0x3E {
                    mode = Mode::Content;
                    if slash && depth > 0 {
                        depth = depth - 1;
                    }
                } else {
                    slash = c == 0x2F;
                }
            },
            Mode::Quoted => {
                if c == quote {
                    mode = Mode::Tag;
                    slash = false;
                }
            },
            Mode::Comment => {
                if wait > 0 {
                    wait = wait - 1;
                } else if c == 0x2D && c1 == 0x2D && c2 == 0x3E {
                    mode = Mode::Content;
                }
            },
            Mode::CData => {
                if wait > 0 {
                    wait = wait - 1;
                } else if c == 0x5D && c1 == 0x5D && c2 == 0x3E {
                    mode = Mode::Content;
                }
            },
            Mode::Instruction => {
                if wait > 0 {
                    wait = wait - 1;
                } else if c == 0x3F && c1 == 0x3E {
                    mode = Mode::Content;
                }
            },
            Mode::Skip => {
                if wait > 0 {
                    wait = wait - 1;
                } else if c == 0x3E {
                    mode = Mode::Content;
                }
            },
        }
        i = i + 1;
    }
    deepest <= MAX_NESTING
}

/// Why a document could not be read, as plain text.
pub enum Failure {
    TooDeep,
    Malformed { diagnostic: Seq<char> },
}

/// Why a document could not be read.
#[derive(Debug, Clone, PartialEq, Eq)]
pub enum ParseError {
    /// More elements are open at a time than a document may have.
    TooDeep,
    /// The text is not a well-formed document; the parser's diagnostic says
    /// why.
    Malformed { diagnostic: String },
}

impl View for ParseError {
    type V = Failure;

    open spec fn view(&self) -> Failure {
        match self {
            ParseError::TooDeep => Failure::TooDeep,
            ParseError::Malformed { diagnostic } => Failure::Malformed { diagnostic: diagnostic@ },
        }
    }
}

/// The error as one line: a fixed prefix, then what is wrong.
pub open spec fn message_of(failure: Failure) -> Seq<char> {
    match failure {
        Failure::TooDeep => "XML parse error: "@ + "elements are nested too deeply"@,
        Failure::Malformed { diagnostic } => "XML parse error: "@ + diagnostic,
    }
}

impl ParseError {
    /// The error as one line: a fixed prefix, then what is wrong.
    pub fn message(&self) -> (text: String)
        ensures
            text@ == message_of(self@),
    {
        let mut text = String::from_str("XML parse error: ");
        match self {
            ParseError::TooDeep => {
                text.append("elements are nested too deeply");
            },
            ParseError::Malformed { diagnostic } => {
                text.append(diagnostic.as_str());
            },
        }
        text
    }
}

/// What reading a text gives: the nodes of the document; the failure
/// `TooDeep` where the text is not shallow; and otherwise, where the text is
/// not a well-formed document, the parser's diagnostic.
pub open spec fn readable(text: Seq<char>) -> Result<Seq<NodeText>, Failure> {
    if !shallow(text) {
        Err(Failure::TooDeep)
    } else {
        match document_tree(text) {
            Ok(tree) => Ok(tree),
            Err(diagnostic) => Err(Failure::Malformed { diagnostic }),
        }
    }
}

/// Reads a document into its list of nodes. Fails where more elements are
/// open at a time than a document may have, and where the text is not a
/// well-formed document; in both cases before anything is extracted.
pub fn read_document(text: &str) -> (r: Result<Vec<XmlNode>, ParseError>)
    ensures
        match r {
            Ok(nodes) => readable(text@) == Ok::<Seq<NodeText>, Failure>(tree_text(nodes@)),
            Err(error) => readable(text@) == Err::<Seq<NodeText>, Failure>(error@),
        },
{
    if !is_shallow(text) {
        return Err(ParseError::TooDeep);
    }
    match parse_tree(text) {
        Ok(nodes) => Ok(nodes),
        Err(diagnostic) => Err(ParseError::Malformed { diagnostic }),
    }
}

/// The value of the first attribute of `node` named `name`.
pub open spec fn attribute_of(node: NodeText, name: Seq<char>) -> Option<Seq<char>>
    decreases node.attributes.len(),
{
    if node.attributes.len() == 0 {
        None
    } else if node.attributes[0].0 == name {
        Some(node.attributes[0].1)
    } else {
        attribute_of(
            NodeText { tag: node.tag, attributes: node.attributes.drop_first(), span: node.span },
            name,
        )
    }
}

/// Where the subtree of the node at position `i` ends: the position after
/// its last descendant, never beyond the end of the list.
pub open spec fn subtree_end(nodes: Seq<NodeText>, i: int) -> int {
    if i + nodes[i].span <= nodes.len() {
        i + nodes[i].span
    } else {
        nodes.len() as int
    }
}

/// The text of an optional string.
pub open spec fn opt_text(s: Option<String>) -> Option<Seq<char>> {
    match s {
        Some(s) => Some(s@),
        None => None,
    }
}

impl XmlNode {
    /// Whether the node's tag name is `name`.
    pub fn has_tag(&self, name: &str) -> (b: bool)
        ensures
            b == (self@.tag == name@),
    {
        let wanted = String::from_str(name);
        self.tag == wanted
    }

    /// The value of the first attribute named `name`, if there is one.
    pub fn attribute(&self, name: &str) -> (r: Option<String>)
        ensures
            opt_text(r) == attribute_of(self@, name@),
    {
        let wanted = String::from_str(name);
        let mut i: usize = 0;
        let ghost whole = self@;
        assert(whole.attributes.skip(0) =~= whole.attributes);
        while i < self.attributes.len()
            invariant
                i <= self.attributes.len(),
                whole == self@,
                wanted@ == name@,
                attribute_of(whole, name@) == attribute_of(
                    NodeText {
                        tag: whole.tag,
                        attributes: whole.attributes.skip(i as int),
                        span: whole.span,
                    },
                    name@,
                ),
            decreases self.attributes.len() - i,
        {
            let ghost rest = whole.attributes.skip(i as int);
            assert(rest.drop_first() =~= whole.attributes.skip(i + 1));
            assert(rest[0] == (self.attributes[i as int].0@, self.attributes[i as int].1@));
            if self.attributes[i].0 == wanted {
                return Some(self.attributes[i].1.clone());
            }
            i = i + 1;
        }
        None
    }
}

/// Where the subtree of the node at position `i` ends.
pub fn end_of_subtree(nodes: &Vec<XmlNode>, i: usize) -> (end: usize)
    requires
        i < nodes.len(),
    ensures
        end == subtree_end(tree_text(nodes@), i as int),
        i <= end <= nodes.len(),
{
    let span: usize = nodes[i].span;
    if span <= nodes.len() - i {
        i + span
    } else {
        nodes.len()
    }
}

} // verus!
