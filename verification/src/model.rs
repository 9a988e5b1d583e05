use vstd::prelude::*;

verus! {

/// What the workbench panel shows: the source, the rendered preview, or both side by side.
#[derive(Debug, Clone, Copy, PartialEq, Eq, Structural)]
pub enum WorkbenchView {
    Source,
    Preview,
    Split,
}

impl WorkbenchView {
    pub open spec fn next_spec(self) -> WorkbenchView {
        match self {
            WorkbenchView::Source => WorkbenchView::Preview,
            WorkbenchView::Preview => WorkbenchView::Split,
            WorkbenchView::Split => WorkbenchView::Source,
        }
    }

    /// The view after this one in the cycle Source, Preview, Split.
    pub fn next(self) -> (r: WorkbenchView)
        ensures
            r == self.next_spec(),
    {
        match self {
            WorkbenchView::Source => WorkbenchView::Preview,
            WorkbenchView::Preview => WorkbenchView::Split,
            WorkbenchView::Split => WorkbenchView::Source,
        }
    }

    pub open spec fn label_spec(self) -> Seq<char> {
        match self {
            WorkbenchView::Source => "Source"@,
            WorkbenchView::Preview => "Preview"@,
            WorkbenchView::Split => "Split"@,
        }
    }

    /// The tab caption of the view.
    pub fn label(self) -> (r: &'static str)
        ensures
            r@ == self.label_spec(),
    {
        match self {
            WorkbenchView::Source => "Source",
            WorkbenchView::Preview => "Preview",
            WorkbenchView::Split => "Split",
        }
    }
}

/// Cycling through the views with `next` comes back to the start after three steps, and
/// never stays in place.
pub proof fn law_view_cycle(v: WorkbenchView)
    ensures
        v.next_spec().next_spec().next_spec() == v,
        v.next_spec() != v,
{
}

/// The kind of a document, decided by its file extension.
#[derive(Debug, Clone, Copy, PartialEq, Eq, Structural)]
pub enum DocumentKind {
    Markdown,
    Html,
    Text,
}

impl DocumentKind {
    pub open spec fn label_spec(self) -> Seq<char> {
        match self {
            DocumentKind::Markdown => "MD"@,
            DocumentKind::Html => "HTML"@,
            DocumentKind::Text => "TXT"@,
        }
    }

    /// Short tag shown in the document list.
    pub fn label(self) -> (r: &'static str)
        ensures
            r@ == self.label_spec(),
    {
        match self {
            DocumentKind::Markdown => "MD",
            DocumentKind::Html => "HTML",
            DocumentKind::Text => "TXT",
        }
    }
}

/// Where a document was found.
#[derive(Debug, Clone, Copy, PartialEq, Eq, Structural)]
pub enum DocumentSource {
    Recent,
    Git,
    Cwd,
}

impl DocumentSource {
    pub open spec fn label_spec(self) -> Seq<char> {
        match self {
            DocumentSource::Recent => "recent"@,
            DocumentSource::Git => "dirty"@,
            DocumentSource::Cwd => "cwd"@,
        }
    }

    /// Short tag shown in the document list.
    pub fn label(self) -> (r: &'static str)
        ensures
            r@ == self.label_spec(),
    {
        match self {
            DocumentSource::Recent => "recent",
            DocumentSource::Git => "dirty",
            DocumentSource::Cwd => "cwd",
        }
    }
}

/// A document offered by the workbench.
#[derive(Debug, PartialEq, Eq)]
pub struct DocumentEntry {
    pub path: String,
    pub display_path: String,
    pub kind: DocumentKind,
    pub source: DocumentSource,
}

impl Clone for DocumentEntry {
    fn clone(&self) -> (r: Self)
        ensures
            r == *self,
    {
        DocumentEntry {
            path: self.path.clone(),
            display_path: self.display_path.clone(),
            kind: self.kind,
            source: self.source,
        }
    }
}

/// The part of the workbench panel that a mouse event hit.
#[derive(Debug, Clone, Copy, PartialEq, Eq, Structural)]
pub enum WorkbenchHit {
    Panel,
    ResizeHandle,
    Close,
    CopyPath,
    OpenExternal,
    Save,
    Discard,
    Reload,
    View(WorkbenchView),
    SelectDocument(usize),
    Editor,
}

} // verus!
