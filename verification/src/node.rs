//! Document nodes and the tree walk that decides, node by node, what is
//! echoed and what is mutilated.

use vstd::prelude::*;
use vstd::string::*;
use crate::context::Context;
use crate::index::WordIndex;
use crate::strings::{push_range, to_chars};
use crate::text::{
    draws_for_all,
    keeps_length,
    lemma_text_length_kept,
    mutilate_text,
    mutilates_text,
};
use crate::tokens::words;

verus! {

/// What a node is, as far as the walk tells nodes apart.
#[derive(Debug, PartialEq, Eq)]
pub enum NodeKind {
    /// Plain text.
    Text,
    /// A comment that runs to the end of its line.
    LineComment,
    /// A comment between an opening and a closing delimiter.
    BlockComment,
    /// A quoted string.
    Str,
    /// A raw block between fences of backticks, with the language tag that
    /// follows its opening fence, if it has one.
    Raw { language: Option<String> },
    /// A hyperlink.
    Link,
    /// A directive that includes a module.
    ModuleInclude,
    /// A directive that imports from a module.
    ModuleImport,
    /// Any other node.
    Other,
}

/// A node of the document tree: a leaf with its text, or a node with
/// children, whose text is that of its children.
#[derive(Debug)]
pub struct Node {
    pub kind: NodeKind,
    pub text: String,
    pub children: Vec<Node>,
}

/// The sequences one behind the other.
pub open spec fn joined(parts: Seq<Seq<char>>) -> Seq<char>
    decreases parts.len(),
{
    if parts.len() == 0 {
        Seq::empty()
    } else {
        joined(parts.drop_last()) + parts.last()
    }
}

/// How many times `c` stands at the start of `span` before anything else.
pub open spec fn leading(span: Seq<char>, c: char) -> nat
    decreases span.len(),
{
    if span.len() == 0 || span[0] != c {
        0
    } else {
        1 + leading(span.skip(1), c)
    }
}

/// The length of the fence a raw block opens with: its leading backticks.
pub open spec fn fence_len(span: Seq<char>) -> nat {
    leading(span, '`')
}

impl NodeKind {
    /// Whether a node of this kind is echoed whole, whatever it holds.
    pub open spec fn verbatim(self) -> bool {
        self is ModuleInclude || self is ModuleImport
    }

    /// Whether the text of a node of this kind is tokenized and mutilated.
    /// A quoted string is only in aggressive mode.
    pub open spec fn framed(self, aggressive: bool) -> bool {
        match self {
            NodeKind::Text | NodeKind::Link => true,
            NodeKind::LineComment | NodeKind::BlockComment => true,
            NodeKind::Raw { .. } => true,
            NodeKind::Str => aggressive,
            _ => false,
        }
    }

    /// The language tag of a raw block; empty for every other node.
    pub open spec fn tag(self) -> Seq<char> {
        match self {
            NodeKind::Raw { language: Some(tag) } => tag@,
            _ => Seq::empty(),
        }
    }

    /// How many characters at the start of `span` are echoed: the comment
    /// marker, the opening delimiter, the opening quote, or the opening fence
    /// and the language tag.
    pub open spec fn head_len(self, span: Seq<char>) -> nat {
        match self {
            NodeKind::LineComment | NodeKind::BlockComment => 2,
            NodeKind::Str => 1,
            NodeKind::Raw { .. } => fence_len(span) + self.tag().len(),
            _ => 0,
        }
    }

    /// How many characters at the end of `span` are echoed: the closing
    /// delimiter, the closing quote or the closing fence.
    pub open spec fn tail_len(self, span: Seq<char>) -> nat {
        match self {
            NodeKind::BlockComment => 2,
            NodeKind::Str => 1,
            NodeKind::Raw { .. } => fence_len(span),
            _ => 0,
        }
    }

    /// Whether `span` holds what a node of this kind is echoed by: it is long
    /// enough for its head and its tail; a raw block closes with the fence it
    /// opens with, and its language tag stands right behind the opening
    /// fence.
    pub open spec fn fits(self, span: Seq<char>) -> bool {
        &&& self.head_len(span) + self.tail_len(span) <= span.len()
        &&& self is Raw ==> {
            &&& span.skip(span.len() - fence_len(span)) == span.take(fence_len(span) as int)
            &&& span.subrange(fence_len(span) as int, self.head_len(span) as int) == self.tag()
        }
    }
}

impl Node {
    /// The text the node stands for: its own if it has no children, else
    /// that of its children, one behind the other.
    pub open spec fn source(self) -> Seq<char>
        decreases self, 1nat,
    {
        if self.children.len() == 0 {
            self.text@
        } else {
            joined(self.child_sources())
        }
    }

    /// The text of each child, in order.
    pub open spec fn child_sources(self) -> Seq<Seq<char>>
        decreases self, 0nat,
    {
        Seq::new(
            self.children.len() as nat,
            |i: int|
                if 0 <= i < self.children.len() {
                    self.children[i].source()
                } else {
                    Seq::empty()
                },
        )
    }

    /// Whether the walk can handle the node: where a node's text is
    /// tokenized, it fits its kind; where the walk goes on into the children,
    /// they can be handled.
    pub open spec fn well_formed(self, aggressive: bool) -> bool
        decreases self,
    {
        if self.kind.framed(aggressive) {
            self.kind.fits(self.source())
        } else if self.kind.verbatim() {
            true
        } else {
            forall|i: int|
                0 <= i < self.children.len() ==> (#[trigger] self.children[i]).well_formed(
                    aggressive,
                )
        }
    }

    /// What of the node's text is echoed before the tokenized part.
    pub open spec fn head(self) -> Seq<char> {
        self.source().take(self.kind.head_len(self.source()) as int)
    }

    /// What of the node's text is echoed behind the tokenized part.
    pub open spec fn tail(self) -> Seq<char> {
        self.source().skip(self.source().len() - self.kind.tail_len(self.source()))
    }

    /// The part of the node's text that is tokenized: what lies between head
    /// and tail.
    pub open spec fn interior(self) -> Seq<char> {
        self.source().subrange(
            self.kind.head_len(self.source()) as int,
            self.source().len() - self.kind.tail_len(self.source()),
        )
    }

    /// Whether `out` is what the walk may make of the node. Where the node's
    /// text is tokenized, `out` is the text with its head and tail as they
    /// are and what lies between mutilated. A directive and any other leaf
    /// are echoed. For any other node, `out` is what the walk may make of its
    /// children, one behind the other.
    pub open spec fn mutilated_to(self, index: &WordIndex, aggressive: bool, out: Seq<char>) -> bool
        decreases self,
    {
        if self.kind.framed(aggressive) {
            exists|piece: Seq<char>|
                mutilates_text(index, self.interior(), piece) && out == self.head() + piece
                    + self.tail()
        } else if self.kind.verbatim() || self.children.len() == 0 {
            out == self.source()
        } else {
            exists|pieces: Seq<Seq<char>>|
                {
                    &&& pieces.len() == self.children.len()
                    &&& forall|i: int|
                        0 <= i < self.children.len() ==> (#[trigger] self.children[i]).mutilated_to(
                            index,
                            aggressive,
                            pieces[i],
                        )
                    &&& out == joined(pieces)
                }
        }
    }

    /// Whether every word the walk replaces in the node gets a substitute
    /// that is always as long as the word.
    pub open spec fn keeps_lengths(self, index: &WordIndex, aggressive: bool) -> bool
        decreases self,
    {
        if self.kind.framed(aggressive) {
            forall|j: int|
                0 <= j < words(self.interior()).len() ==> keeps_length(
                    index,
                    #[trigger] words(self.interior())[j],
                )
        } else if self.kind.verbatim() {
            true
        } else {
            forall|i: int|
                0 <= i < self.children.len() ==> (#[trigger] self.children[i]).keeps_lengths(
                    index,
                    aggressive,
                )
        }
    }

    /// How many draws the walk of the node takes: those for the words of its
    /// tokenized text, none where it is echoed, else those of its children.
    pub open spec fn draws(self, index: &WordIndex, aggressive: bool) -> nat
        decreases self, self.children.len() + 1,
    {
        if self.kind.framed(aggressive) {
            draws_for_all(index, words(self.interior()))
        } else if self.kind.verbatim() {
            0
        } else {
            self.draws_upto(index, aggressive, self.children.len() as nat)
        }
    }

    /// How many draws the walk of the first `k` children takes.
    pub open spec fn draws_upto(self, index: &WordIndex, aggressive: bool, k: nat) -> nat
        decreases self, k,
    {
        if k == 0 || k > self.children.len() {
            0
        } else {
            self.draws_upto(index, aggressive, (k - 1) as nat) + self.children[k - 1].draws(
                index,
                aggressive,
            )
        }
    }
}

/// `c` leads `k` times when it stands at the first `k` places and not at the
/// next.
pub proof fn lemma_leading_is(span: Seq<char>, c: char, k: int)
    requires
        0 <= k <= span.len(),
        forall|i: int| 0 <= i < k ==> #[trigger] span[i] == c,
        k < span.len() ==> span[k] != c,
    ensures
        leading(span, c) == k,
    decreases k,
{
    if k > 0 {
        let rest = span.skip(1);
        lemma_leading_is(rest, c, k - 1);
    }
}

/// Joining one more part appends it.
pub proof fn lemma_joined_push(parts: Seq<Seq<char>>, part: Seq<char>)
    ensures
        joined(parts.push(part)) == joined(parts) + part,
{
    assert(parts.push(part).drop_last() =~= parts);
}

/// The length of the fence `span` opens with.
fn count_fence(span: &Vec<char>) -> (k: usize)
    ensures
        k == fence_len(span@),
        k <= span.len(),
        forall|i: int| 0 <= i < k ==> #[trigger] span@[i] == '`',
{
    let mut k: usize = 0;
    while k < span.len() && span[k] == '`'
        invariant
            k <= span.len(),
            forall|i: int| 0 <= i < k ==> #[trigger] span@[i] == '`',
        decreases span.len() - k,
    {
        k += 1;
    }
    proof {
        lemma_leading_is(span@, '`', k as int);
    }
    k
}

/// Whether `part` stands in `span` from position `at` on.
fn stands_at(span: &Vec<char>, at: usize, part: &Vec<char>) -> (b: bool)
    requires
        at + part.len() <= span.len(),
    ensures
        b == (span@.subrange(at as int, at + part.len()) == part@),
{
    let mut i: usize = 0;
    while i < part.len()
        invariant
            i <= part.len(),
            at + part.len() <= span.len(),
            forall|j: int| 0 <= j < i ==> span@[at + j] == #[trigger] part@[j],
        decreases part.len() - i,
    {
        if span[at + i] != part[i] {
            return false;
        }
        i += 1;
    }
    proof {
        assert(span@.subrange(at as int, at + part.len()) =~= part@);
    }
    true
}

/// Whether the last `k` characters of `span` are backticks.
fn closes_with_fence(span: &Vec<char>, k: usize) -> (b: bool)
    requires
        2 * k <= span.len(),
        forall|i: int| 0 <= i < k ==> #[trigger] span@[i] == '`',
    ensures
        b == (span@.skip(span.len() - k) == span@.take(k as int)),
{
    let start = span.len() - k;
    let mut i: usize = 0;
    while i < k
        invariant
            i <= k,
            start + k == span.len(),
            2 * k <= span.len(),
            forall|j: int| 0 <= j < k ==> #[trigger] span@[j] == '`',
            forall|j: int| 0 <= j < i ==> #[trigger] span@[start + j] == '`',
        decreases k - i,
    {
        if span[start + i] != '`' {
            proof {
                assert(span@.skip(start as int)[i as int] == span@[start + i]);
            }
            return false;
        }
        i += 1;
    }
    proof {
        assert forall|j: int| 0 <= j < k implies span@.skip(start as int)[j] == span@.take(
            k as int,
        )[j] by {
            assert(span@[start + j] == '`');
        }
        assert(span@.skip(start as int) =~= span@.take(k as int));
    }
    true
}

impl NodeKind {
    /// Whether a node of this kind is echoed whole.
    pub fn is_verbatim(&self) -> (b: bool)
        ensures
            b == self.verbatim(),
    {
        match self {
            NodeKind::ModuleInclude => true,
            NodeKind::ModuleImport => true,
            _ => false,
        }
    }

    /// Whether the text of a node of this kind is tokenized.
    pub fn is_framed(&self, aggressive: bool) -> (b: bool)
        ensures
            b == self.framed(aggressive),
    {
        match self {
            NodeKind::Text => true,
            NodeKind::LineComment => true,
            NodeKind::BlockComment => true,
            NodeKind::Link => true,
            NodeKind::Raw { .. } => true,
            NodeKind::Str => aggressive,
            _ => false,
        }
    }

    /// The lengths of the head and the tail of `span`, if it fits this kind.
    pub fn frame(&self, span: &Vec<char>) -> (r: Option<(usize, usize)>)
        ensures
            r is Some <==> self.fits(span@),
            r matches Some((head, tail)) ==> head == self.head_len(span@) && tail == self.tail_len(
                span@,
            ),
    {
        match self {
            NodeKind::LineComment => if span.len() >= 2 {
                Some((2, 0))
            } else {
                None
            },
            NodeKind::BlockComment => if span.len() >= 4 {
                Some((2, 2))
            } else {
                None
            },
            NodeKind::Str => if span.len() >= 2 {
                Some((1, 1))
            } else {
                None
            },
            NodeKind::Raw { language } => {
                let fence = count_fence(span);
                if fence > span.len() - fence {
                    return None;
                }
                let room = span.len() - fence - fence;
                let tag: Vec<char> = match language {
                    Some(tag) => to_chars(tag.as_str()),
                    None => Vec::new(),
                };
                if tag.len() > room {
                    return None;
                }
                if !closes_with_fence(span, fence) {
                    return None;
                }
                if !stands_at(span, fence, &tag) {
                    return None;
                }
                Some((fence + tag.len(), fence))
            },
            _ => Some((0, 0)),
        }
    }
}

/// Appends the text a node stands for to `output`.
pub fn write_node(node: &Node, output: &mut String)
    ensures
        final(output)@ == old(output)@ + node.source(),
    decreases node,
{
    if node.children.len() == 0 {
        output.append(node.text.as_str());
    } else {
        let ghost sources = node.child_sources();
        let mut i: usize = 0;
        while i < node.children.len()
            invariant
                i <= node.children.len(),
                sources == node.child_sources(),
                output@ == old(output)@ + joined(sources.take(i as int)),
            decreases node.children.len() - i,
        {
            write_node(&node.children[i], output);
            proof {
                lemma_joined_push(sources.take(i as int), sources[i as int]);
                assert(sources.take(i as int).push(sources[i as int]) =~= sources.take(i + 1));
            }
            i += 1;
        }
        proof {
            assert(sources.take(i as int) =~= sources);
        }
    }
}

/// The characters of the text a node stands for.
pub fn source_chars(node: &Node) -> (span: Vec<char>)
    ensures
        span@ == node.source(),
{
    let mut text = String::new();
    write_node(node, &mut text);
    to_chars(text.as_str())
}

/// Whether the walk can handle the node.
pub fn is_well_formed(node: &Node, aggressive: bool) -> (b: bool)
    ensures
        b == node.well_formed(aggressive),
    decreases node,
{
    if node.kind.is_framed(aggressive) {
        let span = source_chars(node);
        node.kind.frame(&span).is_some()
    } else if node.kind.is_verbatim() {
        true
    } else {
        let mut i: usize = 0;
        while i < node.children.len()
            invariant
                i <= node.children.len(),
                !node.kind.framed(aggressive),
                !node.kind.verbatim(),
                forall|j: int| 0 <= j < i ==> (#[trigger] node.children[j]).well_formed(aggressive),
            decreases node.children.len() - i,
        {
            if !is_well_formed(&node.children[i], aggressive) {
                return false;
            }
            i += 1;
        }
        true
    }
}

/// Walks the node and appends to `output` what becomes of it: the text of a
/// text node, a comment, a raw block, a link and, in aggressive mode, a
/// quoted string is mutilated between its delimiters; a module directive and
/// any other leaf are echoed; any other node is walked child by child.
pub fn mutilate(node: &Node, context: &mut Context, output: &mut String)
    requires
        old(context).well_formed(),
        node.well_formed(old(context).aggressive),
    ensures
        final(context).well_formed(),
        final(context).same_settings(old(context)),
        final(context).draws() == old(context).draws() + node.draws(
            &old(context).index,
            old(context).aggressive,
        ),
        exists|piece: Seq<char>|
            node.mutilated_to(&old(context).index, old(context).aggressive, piece)
                && final(output)@ == old(output)@ + piece,
    decreases node,
{
    let ghost index = context.index;
    let ghost aggressive = context.aggressive;
    if node.kind.is_framed(context.aggressive) {
        let span = source_chars(node);
        if let Some((head, tail)) = node.kind.frame(&span) {
            let end = span.len() - tail;
            push_range(output, &span, 0, head);
            let mut interior = String::new();
            push_range(&mut interior, &span, head, end);
            let ghost before = output@;
            mutilate_text(interior.as_str(), context, output);
            push_range(output, &span, end, span.len());
            proof {
                let piece = choose|piece: Seq<char>|
                    mutilates_text(&index, node.interior(), piece) && output@ == before + piece
                        + node.tail();
                assert(output@ =~= old(output)@ + (node.head() + piece + node.tail()));
            }
        }
    } else if node.kind.is_verbatim() || node.children.len() == 0 {
        write_node(node, output);
    } else {
        let ghost mut pieces: Seq<Seq<char>> = Seq::empty();
        let mut i: usize = 0;
        while i < node.children.len()
            invariant
                i <= node.children.len(),
                index == old(context).index,
                aggressive == old(context).aggressive,
                context.well_formed(),
                context.same_settings(old(context)),
                context.draws() == old(context).draws() + node.draws_upto(
                    &index,
                    aggressive,
                    i as nat,
                ),
                node.well_formed(aggressive),
                !node.kind.framed(aggressive),
                !node.kind.verbatim(),
                pieces.len() == i,
                forall|j: int|
                    0 <= j < i ==> (#[trigger] node.children[j]).mutilated_to(
                        &index,
                        aggressive,
                        pieces[j],
                    ),
                output@ == old(output)@ + joined(pieces),
            decreases node.children.len() - i,
        {
            let ghost before = output@;
            mutilate(&node.children[i], context, output);
            proof {
                let piece = choose|piece: Seq<char>|
                    node.children[i as int].mutilated_to(&index, aggressive, piece) && output@
                        == before + piece;
                lemma_joined_push(pieces, piece);
                pieces = pieces.push(piece);
            }
            i += 1;
        }
    }
}

/// Why a document was not mutilated.
#[derive(Debug, Clone, Copy, PartialEq, Eq, Structural)]
pub enum DocumentError {
    /// The parser had complaints about the document.
    Syntax,
    /// A comment, a string or a raw block lacks what it is echoed by.
    Delimiters,
}

/// What becomes of a document with the given root, of which the parser made
/// the given number of complaints: nothing if there are complaints, and
/// nothing if the walk cannot handle the tree.
pub open spec fn document_error(root: Node, diagnostics: usize, aggressive: bool) -> Option<
    DocumentError,
> {
    if diagnostics > 0 {
        Some(DocumentError::Syntax)
    } else if !root.well_formed(aggressive) {
        Some(DocumentError::Delimiters)
    } else {
        None
    }
}

/// Mutilates a whole document, given by its root and the number of
/// complaints the parser made about it. A document with complaints, or one
/// the walk cannot handle, is turned down as a whole: nothing is drawn and
/// nothing comes out.
pub fn mutilate_document(root: &Node, diagnostics: usize, context: &mut Context) -> (r: Result<
    String,
    DocumentError,
>)
    requires
        old(context).well_formed(),
    ensures
        final(context).well_formed(),
        final(context).same_settings(old(context)),
        match r {
            Ok(out) => {
                &&& document_error(*root, diagnostics, old(context).aggressive) is None
                &&& root.mutilated_to(&old(context).index, old(context).aggressive, out@)
                &&& final(context).draws() == old(context).draws() + root.draws(
                    &old(context).index,
                    old(context).aggressive,
                )
            },
            Err(error) => {
                &&& document_error(*root, diagnostics, old(context).aggressive) == Some(error)
                &&& final(context).draws() == old(context).draws()
            },
        },
{
    if diagnostics > 0 {
        return Err(DocumentError::Syntax);
    }
    if !is_well_formed(root, context.aggressive) {
        return Err(DocumentError::Delimiters);
    }
    let mut out = String::new();
    mutilate(root, context, &mut out);
    Ok(out)
}

/// A module directive comes out as it went in.
pub proof fn lemma_directive_echoed(node: Node, index: &WordIndex, aggressive: bool, out: Seq<char>)
    requires
        node.kind.verbatim(),
        node.mutilated_to(index, aggressive, out),
    ensures
        out == node.source(),
{
}

/// Outside aggressive mode a quoted string comes out as it went in, quotes
/// and all.
pub proof fn lemma_quoted_string_echoed(node: Node, index: &WordIndex, out: Seq<char>)
    requires
        node.kind is Str,
        node.children.len() == 0,
        node.mutilated_to(index, false, out),
    ensures
        out == node.text@,
{
}

/// Where a node's text is tokenized, its head and its tail come out as they
/// went in: the marker of a line comment, the delimiters of a block comment,
/// the quotes of a string in aggressive mode.
pub proof fn lemma_delimiters_echoed(
    node: Node,
    index: &WordIndex,
    aggressive: bool,
    out: Seq<char>,
)
    requires
        node.kind.framed(aggressive),
        node.kind.fits(node.source()),
        node.mutilated_to(index, aggressive, out),
    ensures
        out.len() >= node.head().len() + node.tail().len(),
        out.take(node.head().len() as int) == node.head(),
        out.skip(out.len() - node.tail().len()) == node.tail(),
{
}

/// A raw block comes out between the fences it went in with, and its
/// language tag stays behind the opening fence.
pub proof fn lemma_raw_block_echoed(node: Node, index: &WordIndex, aggressive: bool, out: Seq<char>)
    requires
        node.kind is Raw,
        node.kind.fits(node.source()),
        node.mutilated_to(index, aggressive, out),
    ensures
        out.len() >= 2 * fence_len(node.source()) + node.kind.tag().len(),
        out.take(fence_len(node.source()) as int) == node.source().take(
            fence_len(node.source()) as int,
        ),
        out.subrange(
            fence_len(node.source()) as int,
            (fence_len(node.source()) + node.kind.tag().len()) as int,
        ) == node.kind.tag(),
        out.skip(out.len() - fence_len(node.source())) == node.source().take(
            fence_len(node.source()) as int,
        ),
{
    lemma_delimiters_echoed(node, index, aggressive, out);
}

/// Parts of the same lengths, joined, are of the same length.
pub proof fn lemma_joined_len(parts: Seq<Seq<char>>, others: Seq<Seq<char>>)
    requires
        parts.len() == others.len(),
        forall|i: int| 0 <= i < parts.len() ==> (#[trigger] parts[i]).len() == others[i].len(),
    ensures
        joined(parts).len() == joined(others).len(),
    decreases parts.len(),
{
    if parts.len() > 0 {
        lemma_joined_len(parts.drop_last(), others.drop_last());
    }
}

/// Where every replaced word gets a substitute of its own length, what the
/// walk makes of a node is as long as the node's text: whatever is echoed
/// stands where it stood.
pub proof fn lemma_length_preserved(node: Node, index: &WordIndex, aggressive: bool, out: Seq<char>)
    requires
        node.well_formed(aggressive),
        node.keeps_lengths(index, aggressive),
        node.mutilated_to(index, aggressive, out),
    ensures
        out.len() == node.source().len(),
    decreases node,
{
    if node.kind.framed(aggressive) {
        let piece = choose|piece: Seq<char>|
            mutilates_text(index, node.interior(), piece) && out == node.head() + piece
                + node.tail();
        lemma_text_length_kept(index, node.interior(), piece);
    } else if !node.kind.verbatim() && node.children.len() > 0 {
        let pieces = choose|pieces: Seq<Seq<char>>|
            {
                &&& pieces.len() == node.children.len()
                &&& forall|i: int|
                    0 <= i < node.children.len() ==> (#[trigger] node.children[i]).mutilated_to(
                        index,
                        aggressive,
                        pieces[i],
                    )
                &&& out == joined(pieces)
            };
        assert forall|i: int| 0 <= i < pieces.len() implies (#[trigger] pieces[i]).len()
            == node.child_sources()[i].len() by {
            lemma_length_preserved(node.children[i], index, aggressive, pieces[i]);
        }
        lemma_joined_len(pieces, node.child_sources());
    }
}

} // verus!
