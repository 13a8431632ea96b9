use vstd::prelude::*;

verus! {

/// A namespace-qualified tag name, as the markup tokenizer hands it over.
pub struct QName {
    pub prefix: Option<String>,
    pub local_name: String,
}

/// The semantic category of a tag, without the name it was written with.
#[derive(PartialEq, Eq, Structural, Clone, Copy, Debug)]
pub enum Kind {
    Document,
    Body,
    Paragraph,
    Run,
    Text,
    ParagraphProperty,
    RunProperty,
    Color,
    Unknown,
}

/// The element types of a main document that are recognized; each keeps the
/// qualified name it was written with, for diagnostics.
pub enum ElementType {
    Document(String),
    Body(String),
    Paragraph(String),
    Run(String),
    Text(String),
    ParagraphProperty(String),
    RunProperty(String),
    Color(String),
    /// Any other tag, or a tag outside the recognized namespace.
    Unknown(String),
}

/// The one namespace prefix whose tags are recognized.
pub open spec fn in_word_namespace(name: QName) -> bool {
    name.prefix matches Some(p) && p@ == "w"@
}

/// The kind that a qualified name is classified into.
pub open spec fn kind_of(name: QName) -> Kind {
    if !in_word_namespace(name) {
        Kind::Unknown
    } else if name.local_name@ == "document"@ {
        Kind::Document
    } else if name.local_name@ == "body"@ {
        Kind::Body
    } else if name.local_name@ == "p"@ {
        Kind::Paragraph
    } else if name.local_name@ == "r"@ {
        Kind::Run
    } else if name.local_name@ == "t"@ {
        Kind::Text
    } else if name.local_name@ == "pPr"@ {
        Kind::ParagraphProperty
    } else if name.local_name@ == "rPr"@ {
        Kind::RunProperty
    } else if name.local_name@ == "color"@ {
        Kind::Color
    } else {
        Kind::Unknown
    }
}

/// The diagnostic form of a qualified name: `prefix:local`, or `local` alone.
pub open spec fn raw_of(name: QName) -> Seq<char> {
    match name.prefix {
        Some(p) => p@ + ":"@ + name.local_name@,
        None => name.local_name@,
    }
}

/// Whether `s` holds exactly the characters of `lit`.
fn same_text(s: &String, lit: &str) -> (r: bool)
    ensures
        r == (s@ == lit@),
{
    let t = String::from_str(lit);
    *s == t
}

impl ElementType {
    pub open spec fn kind(&self) -> Kind {
        match self {
            ElementType::Document(_) => Kind::Document,
            ElementType::Body(_) => Kind::Body,
            ElementType::Paragraph(_) => Kind::Paragraph,
            ElementType::Run(_) => Kind::Run,
            ElementType::Text(_) => Kind::Text,
            ElementType::ParagraphProperty(_) => Kind::ParagraphProperty,
            ElementType::RunProperty(_) => Kind::RunProperty,
            ElementType::Color(_) => Kind::Color,
            ElementType::Unknown(_) => Kind::Unknown,
        }
    }

    pub open spec fn raw(&self) -> Seq<char> {
        match self {
            ElementType::Document(s) => s@,
            ElementType::Body(s) => s@,
            ElementType::Paragraph(s) => s@,
            ElementType::Run(s) => s@,
            ElementType::Text(s) => s@,
            ElementType::ParagraphProperty(s) => s@,
            ElementType::RunProperty(s) => s@,
            ElementType::Color(s) => s@,
            ElementType::Unknown(s) => s@,
        }
    }

    /// Classifies a qualified name; never fails.
    pub fn from_name(name: &QName) -> (r: Self)
        ensures
            r.kind() == kind_of(*name),
            r.raw() == raw_of(*name),
    {
        let raw = match &name.prefix {
            Some(p) => p.clone().concat(":").concat(name.local_name.as_str()),
            None => name.local_name.clone(),
        };
        let recognized = match &name.prefix {
            Some(p) => same_text(p, "w"),
            None => false,
        };
        if !recognized {
            return ElementType::Unknown(raw);
        }
        let local = &name.local_name;
        if same_text(local, "document") {
            ElementType::Document(raw)
        } else if same_text(local, "body") {
            ElementType::Body(raw)
        } else if same_text(local, "p") {
            ElementType::Paragraph(raw)
        } else if same_text(local, "r") {
            ElementType::Run(raw)
        } else if same_text(local, "t") {
            ElementType::Text(raw)
        } else if same_text(local, "pPr") {
            ElementType::ParagraphProperty(raw)
        } else if same_text(local, "rPr") {
            ElementType::RunProperty(raw)
        } else if same_text(local, "color") {
            ElementType::Color(raw)
        } else {
            ElementType::Unknown(raw)
        }
    }

    /// The kind, without the name.
    pub fn kind_tag(&self) -> (r: Kind)
        ensures
            r == self.kind(),
    {
        match self {
            ElementType::Document(_) => Kind::Document,
            ElementType::Body(_) => Kind::Body,
            ElementType::Paragraph(_) => Kind::Paragraph,
            ElementType::Run(_) => Kind::Run,
            ElementType::Text(_) => Kind::Text,
            ElementType::ParagraphProperty(_) => Kind::ParagraphProperty,
            ElementType::RunProperty(_) => Kind::RunProperty,
            ElementType::Color(_) => Kind::Color,
            ElementType::Unknown(_) => Kind::Unknown,
        }
    }

    /// The qualified name the element was written with.
    pub fn raw_name(&self) -> (r: &String)
        ensures
            r@ == self.raw(),
    {
        match self {
            ElementType::Document(s) => s,
            ElementType::Body(s) => s,
            ElementType::Paragraph(s) => s,
            ElementType::Run(s) => s,
            ElementType::Text(s) => s,
            ElementType::ParagraphProperty(s) => s,
            ElementType::RunProperty(s) => s,
            ElementType::Color(s) => s,
            ElementType::Unknown(s) => s,
        }
    }

    /// Whether this is a text element (`w:t`).
    pub fn is_text(&self) -> (r: bool)
        ensures
            r == (self.kind() == Kind::Text),
    {
        matches!(self, ElementType::Text(_))
    }

    /// Whether this is a run property element (`w:rPr`).
    pub fn is_run_property(&self) -> (r: bool)
        ensures
            r == (self.kind() == Kind::RunProperty),
    {
        matches!(self, ElementType::RunProperty(_))
    }

    /// Whether this is a color element (`w:color`).
    pub fn is_color(&self) -> (r: bool)
        ensures
            r == (self.kind() == Kind::Color),
    {
        matches!(self, ElementType::Color(_))
    }
}

} // verus!
