//! Events: what the tokenizer emits while it walks through a document.

use vstd::prelude::*;

verus! {

/// Whether an event opens or closes a span.
#[derive(Clone, Copy, Debug, PartialEq, Eq, Structural)]
pub enum Kind {
    /// Start of a span.
    Enter,
    /// End of a span.
    Exit,
}

/// Kinds of embedded content that linked events carry.
#[derive(Clone, Copy, Debug, PartialEq, Eq, Structural)]
pub enum Content {
    /// Flow content.
    Flow,
    /// Content content (paragraphs and definitions).
    Content,
    /// String content.
    String,
    /// Text content.
    Text,
}

/// Names of the spans that the constructs in this crate produce or read.
#[derive(Clone, Copy, Debug, PartialEq, Eq, Structural)]
pub enum Name {
    /// Plain data.
    Data,
    /// Heading (setext) as a whole.
    HeadingSetext,
    /// Text of a heading (setext).
    HeadingSetextText,
    /// Underline of a heading (setext).
    HeadingSetextUnderline,
    /// Image as a whole.
    Image,
    /// Label of a link or image.
    Label,
    /// Label end (`]`).
    LabelEnd,
    /// Label start of an image (`![`).
    LabelImage,
    /// Image marker (`!`).
    LabelImageMarker,
    /// Label start of a link (`[`).
    LabelLink,
    /// Label marker (`[` or `]`).
    LabelMarker,
    /// Text inside a label.
    LabelText,
    /// Line ending.
    LineEnding,
    /// Link as a whole.
    Link,
    /// Paragraph.
    Paragraph,
    /// Reference (`[x]`, `[]`).
    Reference,
    /// Reference marker (`[`, `]`).
    ReferenceMarker,
    /// Reference string.
    ReferenceString,
    /// Resource (`(x "y")`).
    Resource,
    /// Resource destination.
    ResourceDestination,
    /// Enclosed resource destination (`<x>`).
    ResourceDestinationLiteral,
    /// Marker of an enclosed resource destination (`<`, `>`).
    ResourceDestinationLiteralMarker,
    /// Raw resource destination.
    ResourceDestinationRaw,
    /// String of a resource destination.
    ResourceDestinationString,
    /// Resource marker (`(`, `)`).
    ResourceMarker,
    /// Resource title.
    ResourceTitle,
    /// Resource title marker (`"`, `'`, `(`, `)`).
    ResourceTitleMarker,
    /// String of a resource title.
    ResourceTitleString,
    /// Spaces or tabs.
    SpaceOrTab,
}

/// A place in the document.
#[derive(Clone, Copy, Debug, PartialEq, Eq, Structural)]
pub struct Point {
    /// 1-indexed line number.
    pub line: usize,
    /// 1-indexed column number.
    pub column: usize,
    /// 0-indexed byte offset.
    pub index: usize,
}

/// Connection of an event to the previous and next event of the same
/// embedded content.
#[derive(Clone, Copy, Debug)]
pub struct Link {
    /// Index of the previous linked event.
    pub previous: Option<usize>,
    /// Index of the next linked event.
    pub next: Option<usize>,
    /// Content type of the embedded content.
    pub content: Content,
}

/// Something that happened at a certain place.
#[derive(Clone, Copy, Debug)]
pub struct Event {
    /// Enter or exit.
    pub kind: Kind,
    /// Name of the span.
    pub name: Name,
    /// Where it happened.
    pub point: Point,
    /// Link to other events, if part of embedded content.
    pub link: Option<Link>,
}

} // verus!
