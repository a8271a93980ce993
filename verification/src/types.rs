//! The graph vocabulary: node labels, relation types, source languages and
//! heritage kinds, with their textual names.

use vstd::prelude::*;
use crate::text::str_eq;

verus! {

/// The kind of a graph node.
#[derive(Clone, Copy, Debug, PartialEq, Eq, Hash, Structural)]
pub enum NodeLabel {
    Project,
    Package,
    Module,
    Folder,
    File,
    Class,
    Function,
    Method,
    Variable,
    Interface,
    Enum,
    Decorator,
    Import,
    Type,
    CodeElement,
    Community,
    Process,
    Struct,
    Macro,
    Typedef,
    Union,
    Namespace,
    Trait,
    Impl,
    TypeAlias,
    Const,
    Static,
    Property,
    Record,
    Delegate,
    Annotation,
    Constructor,
    Template,
    Section,
    Route,
    Tool,
}

/// The name that `NodeLabel::as_str` gives a label.
pub open spec fn label_name(l: NodeLabel) -> Seq<char> {
    match l {
        NodeLabel::Project => "Project"@,
        NodeLabel::Package => "Package"@,
        NodeLabel::Module => "Module"@,
        NodeLabel::Folder => "Folder"@,
        NodeLabel::File => "File"@,
        NodeLabel::Class => "Class"@,
        NodeLabel::Function => "Function"@,
        NodeLabel::Method => "Method"@,
        NodeLabel::Variable => "Variable"@,
        NodeLabel::Interface => "Interface"@,
        NodeLabel::Enum => "Enum"@,
        NodeLabel::Decorator => "Decorator"@,
        NodeLabel::Import => "Import"@,
        NodeLabel::Type => "Type"@,
        NodeLabel::CodeElement => "CodeElement"@,
        NodeLabel::Community => "Community"@,
        NodeLabel::Process => "Process"@,
        NodeLabel::Struct => "Struct"@,
        NodeLabel::Macro => "Macro"@,
        NodeLabel::Typedef => "Typedef"@,
        NodeLabel::Union => "Union"@,
        NodeLabel::Namespace => "Namespace"@,
        NodeLabel::Trait => "Trait"@,
        NodeLabel::Impl => "Impl"@,
        NodeLabel::TypeAlias => "TypeAlias"@,
        NodeLabel::Const => "Const"@,
        NodeLabel::Static => "Static"@,
        NodeLabel::Property => "Property"@,
        NodeLabel::Record => "Record"@,
        NodeLabel::Delegate => "Delegate"@,
        NodeLabel::Annotation => "Annotation"@,
        NodeLabel::Constructor => "Constructor"@,
        NodeLabel::Template => "Template"@,
        NodeLabel::Section => "Section"@,
        NodeLabel::Route => "Route"@,
        NodeLabel::Tool => "Tool"@,
    }
}

/// Labels of callable symbols.
pub open spec fn spec_is_callable(l: NodeLabel) -> bool {
    l is Function || l is Method || l is Constructor
}

/// Labels of type-defining symbols.
pub open spec fn spec_is_type_def(l: NodeLabel) -> bool {
    l is Class || l is Interface || l is Struct || l is Enum || l is Trait || l is TypeAlias
        || l is Record || l is Union || l is Delegate || l is Template
}

/// Labels of code symbols: everything but filesystem, analysis, section and import nodes.
pub open spec fn spec_is_symbol(l: NodeLabel) -> bool {
    !(l is Project || l is Package || l is Module || l is Folder || l is File || l is Community
        || l is Process || l is Section || l is Import)
}

impl NodeLabel {
    /// The label's name, e.g. `"Function"`.
    pub fn as_str(&self) -> (r: &'static str)
        ensures
            r@ == label_name(*self),
    {
        match self {
            NodeLabel::Project => "Project",
            NodeLabel::Package => "Package",
            NodeLabel::Module => "Module",
            NodeLabel::Folder => "Folder",
            NodeLabel::File => "File",
            NodeLabel::Class => "Class",
            NodeLabel::Function => "Function",
            NodeLabel::Method => "Method",
            NodeLabel::Variable => "Variable",
            NodeLabel::Interface => "Interface",
            NodeLabel::Enum => "Enum",
            NodeLabel::Decorator => "Decorator",
            NodeLabel::Import => "Import",
            NodeLabel::Type => "Type",
            NodeLabel::CodeElement => "CodeElement",
            NodeLabel::Community => "Community",
            NodeLabel::Process => "Process",
            NodeLabel::Struct => "Struct",
            NodeLabel::Macro => "Macro",
            NodeLabel::Typedef => "Typedef",
            NodeLabel::Union => "Union",
            NodeLabel::Namespace => "Namespace",
            NodeLabel::Trait => "Trait",
            NodeLabel::Impl => "Impl",
            NodeLabel::TypeAlias => "TypeAlias",
            NodeLabel::Const => "Const",
            NodeLabel::Static => "Static",
            NodeLabel::Property => "Property",
            NodeLabel::Record => "Record",
            NodeLabel::Delegate => "Delegate",
            NodeLabel::Annotation => "Annotation",
            NodeLabel::Constructor => "Constructor",
            NodeLabel::Template => "Template",
            NodeLabel::Section => "Section",
            NodeLabel::Route => "Route",
            NodeLabel::Tool => "Tool",
        }
    }

    /// Whether this label represents a callable symbol.
    pub fn is_callable(&self) -> (r: bool)
        ensures
            r == spec_is_callable(*self),
    {
        matches!(self, NodeLabel::Function | NodeLabel::Method | NodeLabel::Constructor)
    }

    /// Whether this label represents a type-defining symbol.
    pub fn is_type_def(&self) -> (r: bool)
        ensures
            r == spec_is_type_def(*self),
    {
        matches!(
            self,
            NodeLabel::Class | NodeLabel::Interface | NodeLabel::Struct | NodeLabel::Enum
                | NodeLabel::Trait | NodeLabel::TypeAlias | NodeLabel::Record | NodeLabel::Union
                | NodeLabel::Delegate | NodeLabel::Template
        )
    }

    /// Whether this label represents a symbol (not filesystem/analysis).
    pub fn is_symbol(&self) -> (r: bool)
        ensures
            r == spec_is_symbol(*self),
    {
        !matches!(
            self,
            NodeLabel::Project | NodeLabel::Package | NodeLabel::Module | NodeLabel::Folder
                | NodeLabel::File | NodeLabel::Community | NodeLabel::Process | NodeLabel::Section
                | NodeLabel::Import
        )
    }
}

/// Callable labels and type-defining labels are symbol labels.
pub proof fn lemma_callable_and_type_defs_are_symbols(l: NodeLabel)
    ensures
        spec_is_callable(l) ==> spec_is_symbol(l),
        spec_is_type_def(l) ==> spec_is_symbol(l),
        !(spec_is_callable(l) && spec_is_type_def(l)),
{
}

/// The kind of a graph edge.
#[derive(Clone, Copy, Debug, PartialEq, Eq, Hash, Structural)]
pub enum RelationType {
    Contains,
    Calls,
    Inherits,
    Overrides,
    Imports,
    Uses,
    Defines,
    Decorates,
    Implements,
    Extends,
    HasMethod,
    HasProperty,
    Accesses,
    MemberOf,
    StepInProcess,
    HandlesRoute,
    Fetches,
    HandlesTool,
    EntryPointOf,
    Wraps,
    Queries,
}

/// The name that `RelationType::as_str` gives a relation type.
pub open spec fn relation_name(r: RelationType) -> Seq<char> {
    match r {
        RelationType::Contains => "CONTAINS"@,
        RelationType::Calls => "CALLS"@,
        RelationType::Inherits => "INHERITS"@,
        RelationType::Overrides => "OVERRIDES"@,
        RelationType::Imports => "IMPORTS"@,
        RelationType::Uses => "USES"@,
        RelationType::Defines => "DEFINES"@,
        RelationType::Decorates => "DECORATES"@,
        RelationType::Implements => "IMPLEMENTS"@,
        RelationType::Extends => "EXTENDS"@,
        RelationType::HasMethod => "HAS_METHOD"@,
        RelationType::HasProperty => "HAS_PROPERTY"@,
        RelationType::Accesses => "ACCESSES"@,
        RelationType::MemberOf => "MEMBER_OF"@,
        RelationType::StepInProcess => "STEP_IN_PROCESS"@,
        RelationType::HandlesRoute => "HANDLES_ROUTE"@,
        RelationType::Fetches => "FETCHES"@,
        RelationType::HandlesTool => "HANDLES_TOOL"@,
        RelationType::EntryPointOf => "ENTRY_POINT_OF"@,
        RelationType::Wraps => "WRAPS"@,
        RelationType::Queries => "QUERIES"@,
    }
}

/// The relation type that `RelationType::from_nexus_str` reads from a name.
pub open spec fn spec_relation_from_name(s: Seq<char>) -> Option<RelationType> {
    if s == "CONTAINS"@ {
        Some(RelationType::Contains)
    } else if s == "CALLS"@ {
        Some(RelationType::Calls)
    } else if s == "INHERITS"@ {
        Some(RelationType::Inherits)
    } else if s == "OVERRIDES"@ {
        Some(RelationType::Overrides)
    } else if s == "IMPORTS"@ {
        Some(RelationType::Imports)
    } else if s == "USES"@ {
        Some(RelationType::Uses)
    } else if s == "DEFINES"@ {
        Some(RelationType::Defines)
    } else if s == "DECORATES"@ {
        Some(RelationType::Decorates)
    } else if s == "IMPLEMENTS"@ {
        Some(RelationType::Implements)
    } else if s == "EXTENDS"@ {
        Some(RelationType::Extends)
    } else if s == "HAS_METHOD"@ {
        Some(RelationType::HasMethod)
    } else if s == "HAS_PROPERTY"@ {
        Some(RelationType::HasProperty)
    } else if s == "ACCESSES"@ {
        Some(RelationType::Accesses)
    } else if s == "MEMBER_OF"@ {
        Some(RelationType::MemberOf)
    } else if s == "STEP_IN_PROCESS"@ {
        Some(RelationType::StepInProcess)
    } else if s == "HANDLES_ROUTE"@ {
        Some(RelationType::HandlesRoute)
    } else if s == "FETCHES"@ {
        Some(RelationType::Fetches)
    } else if s == "HANDLES_TOOL"@ {
        Some(RelationType::HandlesTool)
    } else if s == "ENTRY_POINT_OF"@ {
        Some(RelationType::EntryPointOf)
    } else if s == "WRAPS"@ {
        Some(RelationType::Wraps)
    } else if s == "QUERIES"@ {
        Some(RelationType::Queries)
    } else {
        None
    }
}

impl RelationType {
    /// The relation's name, e.g. `"CALLS"`.
    pub fn as_str(&self) -> (r: &'static str)
        ensures
            r@ == relation_name(*self),
    {
        match self {
            RelationType::Contains => "CONTAINS",
            RelationType::Calls => "CALLS",
            RelationType::Inherits => "INHERITS",
            RelationType::Overrides => "OVERRIDES",
            RelationType::Imports => "IMPORTS",
            RelationType::Uses => "USES",
            RelationType::Defines => "DEFINES",
            RelationType::Decorates => "DECORATES",
            RelationType::Implements => "IMPLEMENTS",
            RelationType::Extends => "EXTENDS",
            RelationType::HasMethod => "HAS_METHOD",
            RelationType::HasProperty => "HAS_PROPERTY",
            RelationType::Accesses => "ACCESSES",
            RelationType::MemberOf => "MEMBER_OF",
            RelationType::StepInProcess => "STEP_IN_PROCESS",
            RelationType::HandlesRoute => "HANDLES_ROUTE",
            RelationType::Fetches => "FETCHES",
            RelationType::HandlesTool => "HANDLES_TOOL",
            RelationType::EntryPointOf => "ENTRY_POINT_OF",
            RelationType::Wraps => "WRAPS",
            RelationType::Queries => "QUERIES",
        }
    }

    /// Reads a relation type from its name; `None` for any other text.
    pub fn from_nexus_str(s: &str) -> (r: Option<RelationType>)
        ensures
            r == spec_relation_from_name(s@),
    {
        if str_eq(s, "CONTAINS") {
            Some(RelationType::Contains)
        } else if str_eq(s, "CALLS") {
            Some(RelationType::Calls)
        } else if str_eq(s, "INHERITS") {
            Some(RelationType::Inherits)
        } else if str_eq(s, "OVERRIDES") {
            Some(RelationType::Overrides)
        } else if str_eq(s, "IMPORTS") {
            Some(RelationType::Imports)
        } else if str_eq(s, "USES") {
            Some(RelationType::Uses)
        } else if str_eq(s, "DEFINES") {
            Some(RelationType::Defines)
        } else if str_eq(s, "DECORATES") {
            Some(RelationType::Decorates)
        } else if str_eq(s, "IMPLEMENTS") {
            Some(RelationType::Implements)
        } else if str_eq(s, "EXTENDS") {
            Some(RelationType::Extends)
        } else if str_eq(s, "HAS_METHOD") {
            Some(RelationType::HasMethod)
        } else if str_eq(s, "HAS_PROPERTY") {
            Some(RelationType::HasProperty)
        } else if str_eq(s, "ACCESSES") {
            Some(RelationType::Accesses)
        } else if str_eq(s, "MEMBER_OF") {
            Some(RelationType::MemberOf)
        } else if str_eq(s, "STEP_IN_PROCESS") {
            Some(RelationType::StepInProcess)
        } else if str_eq(s, "HANDLES_ROUTE") {
            Some(RelationType::HandlesRoute)
        } else if str_eq(s, "FETCHES") {
            Some(RelationType::Fetches)
        } else if str_eq(s, "HANDLES_TOOL") {
            Some(RelationType::HandlesTool)
        } else if str_eq(s, "ENTRY_POINT_OF") {
            Some(RelationType::EntryPointOf)
        } else if str_eq(s, "WRAPS") {
            Some(RelationType::Wraps)
        } else if str_eq(s, "QUERIES") {
            Some(RelationType::Queries)
        } else {
            None
        }
    }
}

/// Reading the name of a relation type gives back that relation type.
pub proof fn lemma_relation_name_roundtrip(r: RelationType)
    ensures
        spec_relation_from_name(relation_name(r)) == Some(r),
{
    match r {
        RelationType::Contains => {
            reveal_strlit("CONTAINS");
        },
        RelationType::Calls => {
            reveal_strlit("CALLS");
            reveal_strlit("CONTAINS");
            assert("CALLS"@.len() != "CONTAINS"@.len());
        },
        RelationType::Inherits => {
            reveal_strlit("INHERITS");
            reveal_strlit("CONTAINS");
            assert("INHERITS"@[0] != "CONTAINS"@[0]);
            reveal_strlit("CALLS");
            assert("INHERITS"@.len() != "CALLS"@.len());
        },
        RelationType::Overrides => {
            reveal_strlit("OVERRIDES");
            reveal_strlit("CONTAINS");
            assert("OVERRIDES"@.len() != "CONTAINS"@.len());
            reveal_strlit("CALLS");
            assert("OVERRIDES"@.len() != "CALLS"@.len());
            reveal_strlit("INHERITS");
            assert("OVERRIDES"@.len() != "INHERITS"@.len());
        },
        RelationType::Imports => {
            reveal_strlit("IMPORTS");
            reveal_strlit("CONTAINS");
            assert("IMPORTS"@.len() != "CONTAINS"@.len());
            reveal_strlit("CALLS");
            assert("IMPORTS"@.len() != "CALLS"@.len());
            reveal_strlit("INHERITS");
            assert("IMPORTS"@.len() != "INHERITS"@.len());
            reveal_strlit("OVERRIDES");
            assert("IMPORTS"@.len() != "OVERRIDES"@.len());
        },
        RelationType::Uses => {
            reveal_strlit("USES");
            reveal_strlit("CONTAINS");
            assert("USES"@.len() != "CONTAINS"@.len());
            reveal_strlit("CALLS");
            assert("USES"@.len() != "CALLS"@.len());
            reveal_strlit("INHERITS");
            assert("USES"@.len() != "INHERITS"@.len());
            reveal_strlit("OVERRIDES");
            assert("USES"@.len() != "OVERRIDES"@.len());
            reveal_strlit("IMPORTS");
            assert("USES"@.len() != "IMPORTS"@.len());
        },
        RelationType::Defines => {
            reveal_strlit("DEFINES");
            reveal_strlit("CONTAINS");
            assert("DEFINES"@.len() != "CONTAINS"@.len());
            reveal_strlit("CALLS");
            assert("DEFINES"@.len() != "CALLS"@.len());
            reveal_strlit("INHERITS");
            assert("DEFINES"@.len() != "INHERITS"@.len());
            reveal_strlit("OVERRIDES");
            assert("DEFINES"@.len() != "OVERRIDES"@.len());
            reveal_strlit("IMPORTS");
            assert("DEFINES"@[0] != "IMPORTS"@[0]);
            reveal_strlit("USES");
            assert("DEFINES"@.len() != "USES"@.len());
        },
        RelationType::Decorates => {
            reveal_strlit("DECORATES");
            reveal_strlit("CONTAINS");
            assert("DECORATES"@.len() != "CONTAINS"@.len());
            reveal_strlit("CALLS");
            assert("DECORATES"@.len() != "CALLS"@.len());
            reveal_strlit("INHERITS");
            assert("DECORATES"@.len() != "INHERITS"@.len());
            reveal_strlit("OVERRIDES");
            assert("DECORATES"@[0] != "OVERRIDES"@[0]);
            reveal_strlit("IMPORTS");
            assert("DECORATES"@.len() != "IMPORTS"@.len());
            reveal_strlit("USES");
            assert("DECORATES"@.len() != "USES"@.len());
            reveal_strlit("DEFINES");
            assert("DECORATES"@.len() != "DEFINES"@.len());
        },
        RelationType::Implements => {
            reveal_strlit("IMPLEMENTS");
            reveal_strlit("CONTAINS");
            assert("IMPLEMENTS"@.len() != "CONTAINS"@.len());
            reveal_strlit("CALLS");
            assert("IMPLEMENTS"@.len() != "CALLS"@.len());
            reveal_strlit("INHERITS");
            assert("IMPLEMENTS"@.len() != "INHERITS"@.len());
            reveal_strlit("OVERRIDES");
            assert("IMPLEMENTS"@.len() != "OVERRIDES"@.len());
            reveal_strlit("IMPORTS");
            assert("IMPLEMENTS"@.len() != "IMPORTS"@.len());
            reveal_strlit("USES");
            assert("IMPLEMENTS"@.len() != "USES"@.len());
            reveal_strlit("DEFINES");
            assert("IMPLEMENTS"@.len() != "DEFINES"@.len());
            reveal_strlit("DECORATES");
            assert("IMPLEMENTS"@.len() != "DECORATES"@.len());
        },
        RelationType::Extends => {
            reveal_strlit("EXTENDS");
            reveal_strlit("CONTAINS");
            assert("EXTENDS"@.len() != "CONTAINS"@.len());
            reveal_strlit("CALLS");
            assert("EXTENDS"@.len() != "CALLS"@.len());
            reveal_strlit("INHERITS");
            assert("EXTENDS"@.len() != "INHERITS"@.len());
            reveal_strlit("OVERRIDES");
            assert("EXTENDS"@.len() != "OVERRIDES"@.len());
            reveal_strlit("IMPORTS");
            assert("EXTENDS"@[0] != "IMPORTS"@[0]);
            reveal_strlit("USES");
            assert("EXTENDS"@.len() != "USES"@.len());
            reveal_strlit("DEFINES");
            assert("EXTENDS"@[0] != "DEFINES"@[0]);
            reveal_strlit("DECORATES");
            assert("EXTENDS"@.len() != "DECORATES"@.len());
            reveal_strlit("IMPLEMENTS");
            assert("EXTENDS"@.len() != "IMPLEMENTS"@.len());
        },
        RelationType::HasMethod => {
            reveal_strlit("HAS_METHOD");
            reveal_strlit("CONTAINS");
            assert("HAS_METHOD"@.len() != "CONTAINS"@.len());
            reveal_strlit("CALLS");
            assert("HAS_METHOD"@.len() != "CALLS"@.len());
            reveal_strlit("INHERITS");
            assert("HAS_METHOD"@.len() != "INHERITS"@.len());
            reveal_strlit("OVERRIDES");
            assert("HAS_METHOD"@.len() != "OVERRIDES"@.len());
            reveal_strlit("IMPORTS");
            assert("HAS_METHOD"@.len() != "IMPORTS"@.len());
            reveal_strlit("USES");
            assert("HAS_METHOD"@.len() != "USES"@.len());
            reveal_strlit("DEFINES");
            assert("HAS_METHOD"@.len() != "DEFINES"@.len());
            reveal_strlit("DECORATES");
            assert("HAS_METHOD"@.len() != "DECORATES"@.len());
            reveal_strlit("IMPLEMENTS");
            assert("HAS_METHOD"@[0] != "IMPLEMENTS"@[0]);
            reveal_strlit("EXTENDS");
            assert("HAS_METHOD"@.len() != "EXTENDS"@.len());
        },
        RelationType::HasProperty => {
            reveal_strlit("HAS_PROPERTY");
            reveal_strlit("CONTAINS");
            assert("HAS_PROPERTY"@.len() != "CONTAINS"@.len());
            reveal_strlit("CALLS");
            assert("HAS_PROPERTY"@.len() != "CALLS"@.len());
            reveal_strlit("INHERITS");
            assert("HAS_PROPERTY"@.len() != "INHERITS"@.len());
            reveal_strlit("OVERRIDES");
            assert("HAS_PROPERTY"@.len() != "OVERRIDES"@.len());
            reveal_strlit("IMPORTS");
            assert("HAS_PROPERTY"@.len() != "IMPORTS"@.len());
            reveal_strlit("USES");
            assert("HAS_PROPERTY"@.len() != "USES"@.len());
            reveal_strlit("DEFINES");
            assert("HAS_PROPERTY"@.len() != "DEFINES"@.len());
            reveal_strlit("DECORATES");
            assert("HAS_PROPERTY"@.len() != "DECORATES"@.len());
            reveal_strlit("IMPLEMENTS");
            assert("HAS_PROPERTY"@.len() != "IMPLEMENTS"@.len());
            reveal_strlit("EXTENDS");
            assert("HAS_PROPERTY"@.len() != "EXTENDS"@.len());
            reveal_strlit("HAS_METHOD");
            assert("HAS_PROPERTY"@.len() != "HAS_METHOD"@.len());
        },
        RelationType::Accesses => {
            reveal_strlit("ACCESSES");
            reveal_strlit("CONTAINS");
            assert("ACCESSES"@[0] != "CONTAINS"@[0]);
            reveal_strlit("CALLS");
            assert("ACCESSES"@.len() != "CALLS"@.len());
            reveal_strlit("INHERITS");
            assert("ACCESSES"@[0] != "INHERITS"@[0]);
            reveal_strlit("OVERRIDES");
            assert("ACCESSES"@.len() != "OVERRIDES"@.len());
            reveal_strlit("IMPORTS");
            assert("ACCESSES"@.len() != "IMPORTS"@.len());
            reveal_strlit("USES");
            assert("ACCESSES"@.len() != "USES"@.len());
            reveal_strlit("DEFINES");
            assert("ACCESSES"@.len() != "DEFINES"@.len());
            reveal_strlit("DECORATES");
            assert("ACCESSES"@.len() != "DECORATES"@.len());
            reveal_strlit("IMPLEMENTS");
            assert("ACCESSES"@.len() != "IMPLEMENTS"@.len());
            reveal_strlit("EXTENDS");
            assert("ACCESSES"@.len() != "EXTENDS"@.len());
            reveal_strlit("HAS_METHOD");
            assert("ACCESSES"@.len() != "HAS_METHOD"@.len());
            reveal_strlit("HAS_PROPERTY");
            assert("ACCESSES"@.len() != "HAS_PROPERTY"@.len());
        },
        RelationType::MemberOf => {
            reveal_strlit("MEMBER_OF");
            reveal_strlit("CONTAINS");
            assert("MEMBER_OF"@.len() != "CONTAINS"@.len());
            reveal_strlit("CALLS");
            assert("MEMBER_OF"@.len() != "CALLS"@.len());
            reveal_strlit("INHERITS");
            assert("MEMBER_OF"@.len() != "INHERITS"@.len());
            reveal_strlit("OVERRIDES");
            assert("MEMBER_OF"@[0] != "OVERRIDES"@[0]);
            reveal_strlit("IMPORTS");
            assert("MEMBER_OF"@.len() != "IMPORTS"@.len());
            reveal_strlit("USES");
            assert("MEMBER_OF"@.len() != "USES"@.len());
            reveal_strlit("DEFINES");
            assert("MEMBER_OF"@.len() != "DEFINES"@.len());
            reveal_strlit("DECORATES");
            assert("MEMBER_OF"@[0] != "DECORATES"@[0]);
            reveal_strlit("IMPLEMENTS");
            assert("MEMBER_OF"@.len() != "IMPLEMENTS"@.len());
            reveal_strlit("EXTENDS");
            assert("MEMBER_OF"@.len() != "EXTENDS"@.len());
            reveal_strlit("HAS_METHOD");
            assert("MEMBER_OF"@.len() != "HAS_METHOD"@.len());
            reveal_strlit("HAS_PROPERTY");
            assert("MEMBER_OF"@.len() != "HAS_PROPERTY"@.len());
            reveal_strlit("ACCESSES");
            assert("MEMBER_OF"@.len() != "ACCESSES"@.len());
        },
        RelationType::StepInProcess => {
            reveal_strlit("STEP_IN_PROCESS");
            reveal_strlit("CONTAINS");
            assert("STEP_IN_PROCESS"@.len() != "CONTAINS"@.len());
            reveal_strlit("CALLS");
            assert("STEP_IN_PROCESS"@.len() != "CALLS"@.len());
            reveal_strlit("INHERITS");
            assert("STEP_IN_PROCESS"@.len() != "INHERITS"@.len());
            reveal_strlit("OVERRIDES");
            assert("STEP_IN_PROCESS"@.len() != "OVERRIDES"@.len());
            reveal_strlit("IMPORTS");
            assert("STEP_IN_PROCESS"@.len() != "IMPORTS"@.len());
            reveal_strlit("USES");
            assert("STEP_IN_PROCESS"@.len() != "USES"@.len());
            reveal_strlit("DEFINES");
            assert("STEP_IN_PROCESS"@.len() != "DEFINES"@.len());
            reveal_strlit("DECORATES");
            assert("STEP_IN_PROCESS"@.len() != "DECORATES"@.len());
            reveal_strlit("IMPLEMENTS");
            assert("STEP_IN_PROCESS"@.len() != "IMPLEMENTS"@.len());
            reveal_strlit("EXTENDS");
            assert("STEP_IN_PROCESS"@.len() != "EXTENDS"@.len());
            reveal_strlit("HAS_METHOD");
            assert("STEP_IN_PROCESS"@.len() != "HAS_METHOD"@.len());
            reveal_strlit("HAS_PROPERTY");
            assert("STEP_IN_PROCESS"@.len() != "HAS_PROPERTY"@.len());
            reveal_strlit("ACCESSES");
            assert("STEP_IN_PROCESS"@.len() != "ACCESSES"@.len());
            reveal_strlit("MEMBER_OF");
            assert("STEP_IN_PROCESS"@.len() != "MEMBER_OF"@.len());
        },
        RelationType::HandlesRoute => {
            reveal_strlit("HANDLES_ROUTE");
            reveal_strlit("CONTAINS");
            assert("HANDLES_ROUTE"@.len() != "CONTAINS"@.len());
            reveal_strlit("CALLS");
            assert("HANDLES_ROUTE"@.len() != "CALLS"@.len());
            reveal_strlit("INHERITS");
            assert("HANDLES_ROUTE"@.len() != "INHERITS"@.len());
            reveal_strlit("OVERRIDES");
            assert("HANDLES_ROUTE"@.len() != "OVERRIDES"@.len());
            reveal_strlit("IMPORTS");
            assert("HANDLES_ROUTE"@.len() != "IMPORTS"@.len());
            reveal_strlit("USES");
            assert("HANDLES_ROUTE"@.len() != "USES"@.len());
            reveal_strlit("DEFINES");
            assert("HANDLES_ROUTE"@.len() != "DEFINES"@.len());
            reveal_strlit("DECORATES");
            assert("HANDLES_ROUTE"@.len() != "DECORATES"@.len());
            reveal_strlit("IMPLEMENTS");
            assert("HANDLES_ROUTE"@.len() != "IMPLEMENTS"@.len());
            reveal_strlit("EXTENDS");
            assert("HANDLES_ROUTE"@.len() != "EXTENDS"@.len());
            reveal_strlit("HAS_METHOD");
            assert("HANDLES_ROUTE"@.len() != "HAS_METHOD"@.len());
            reveal_strlit("HAS_PROPERTY");
            assert("HANDLES_ROUTE"@.len() != "HAS_PROPERTY"@.len());
            reveal_strlit("ACCESSES");
            assert("HANDLES_ROUTE"@.len() != "ACCESSES"@.len());
            reveal_strlit("MEMBER_OF");
            assert("HANDLES_ROUTE"@.len() != "MEMBER_OF"@.len());
            reveal_strlit("STEP_IN_PROCESS");
            assert("HANDLES_ROUTE"@.len() != "STEP_IN_PROCESS"@.len());
        },
        RelationType::Fetches => {
            reveal_strlit("FETCHES");
            reveal_strlit("CONTAINS");
            assert("FETCHES"@.len() != "CONTAINS"@.len());
            reveal_strlit("CALLS");
            assert("FETCHES"@.len() != "CALLS"@.len());
            reveal_strlit("INHERITS");
            assert("FETCHES"@.len() != "INHERITS"@.len());
            reveal_strlit("OVERRIDES");
            assert("FETCHES"@.len() != "OVERRIDES"@.len());
            reveal_strlit("IMPORTS");
            assert("FETCHES"@[0] != "IMPORTS"@[0]);
            reveal_strlit("USES");
            assert("FETCHES"@.len() != "USES"@.len());
            reveal_strlit("DEFINES");
            assert("FETCHES"@[0] != "DEFINES"@[0]);
            reveal_strlit("DECORATES");
            assert("FETCHES"@.len() != "DECORATES"@.len());
            reveal_strlit("IMPLEMENTS");
            assert("FETCHES"@.len() != "IMPLEMENTS"@.len());
            reveal_strlit("EXTENDS");
            assert("FETCHES"@[0] != "EXTENDS"@[0]);
            reveal_strlit("HAS_METHOD");
            assert("FETCHES"@.len() != "HAS_METHOD"@.len());
            reveal_strlit("HAS_PROPERTY");
            assert("FETCHES"@.len() != "HAS_PROPERTY"@.len());
            reveal_strlit("ACCESSES");
            assert("FETCHES"@.len() != "ACCESSES"@.len());
            reveal_strlit("MEMBER_OF");
            assert("FETCHES"@.len() != "MEMBER_OF"@.len());
            reveal_strlit("STEP_IN_PROCESS");
            assert("FETCHES"@.len() != "STEP_IN_PROCESS"@.len());
            reveal_strlit("HANDLES_ROUTE");
            assert("FETCHES"@.len() != "HANDLES_ROUTE"@.len());
        },
        RelationType::HandlesTool => {
            reveal_strlit("HANDLES_TOOL");
            reveal_strlit("CONTAINS");
            assert("HANDLES_TOOL"@.len() != "CONTAINS"@.len());
            reveal_strlit("CALLS");
            assert("HANDLES_TOOL"@.len() != "CALLS"@.len());
            reveal_strlit("INHERITS");
            assert("HANDLES_TOOL"@.len() != "INHERITS"@.len());
            reveal_strlit("OVERRIDES");
            assert("HANDLES_TOOL"@.len() != "OVERRIDES"@.len());
            reveal_strlit("IMPORTS");
            assert("HANDLES_TOOL"@.len() != "IMPORTS"@.len());
            reveal_strlit("USES");
            assert("HANDLES_TOOL"@.len() != "USES"@.len());
            reveal_strlit("DEFINES");
            assert("HANDLES_TOOL"@.len() != "DEFINES"@.len());
            reveal_strlit("DECORATES");
            assert("HANDLES_TOOL"@.len() != "DECORATES"@.len());
            reveal_strlit("IMPLEMENTS");
            assert("HANDLES_TOOL"@.len() != "IMPLEMENTS"@.len());
            reveal_strlit("EXTENDS");
            assert("HANDLES_TOOL"@.len() != "EXTENDS"@.len());
            reveal_strlit("HAS_METHOD");
            assert("HANDLES_TOOL"@.len() != "HAS_METHOD"@.len());
            reveal_strlit("HAS_PROPERTY");
            assert("HANDLES_TOOL"@[2] != "HAS_PROPERTY"@[2]);
            reveal_strlit("ACCESSES");
            assert("HANDLES_TOOL"@.len() != "ACCESSES"@.len());
            reveal_strlit("MEMBER_OF");
            assert("HANDLES_TOOL"@.len() != "MEMBER_OF"@.len());
            reveal_strlit("STEP_IN_PROCESS");
            assert("HANDLES_TOOL"@.len() != "STEP_IN_PROCESS"@.len());
            reveal_strlit("HANDLES_ROUTE");
            assert("HANDLES_TOOL"@.len() != "HANDLES_ROUTE"@.len());
            reveal_strlit("FETCHES");
            assert("HANDLES_TOOL"@.len() != "FETCHES"@.len());
        },
        RelationType::EntryPointOf => {
            reveal_strlit("ENTRY_POINT_OF");
            reveal_strlit("CONTAINS");
            assert("ENTRY_POINT_OF"@.len() != "CONTAINS"@.len());
            reveal_strlit("CALLS");
            assert("ENTRY_POINT_OF"@.len() != "CALLS"@.len());
            reveal_strlit("INHERITS");
            assert("ENTRY_POINT_OF"@.len() != "INHERITS"@.len());
            reveal_strlit("OVERRIDES");
            assert("ENTRY_POINT_OF"@.len() != "OVERRIDES"@.len());
            reveal_strlit("IMPORTS");
            assert("ENTRY_POINT_OF"@.len() != "IMPORTS"@.len());
            reveal_strlit("USES");
            assert("ENTRY_POINT_OF"@.len() != "USES"@.len());
            reveal_strlit("DEFINES");
            assert("ENTRY_POINT_OF"@.len() != "DEFINES"@.len());
            reveal_strlit("DECORATES");
            assert("ENTRY_POINT_OF"@.len() != "DECORATES"@.len());
            reveal_strlit("IMPLEMENTS");
            assert("ENTRY_POINT_OF"@.len() != "IMPLEMENTS"@.len());
            reveal_strlit("EXTENDS");
            assert("ENTRY_POINT_OF"@.len() != "EXTENDS"@.len());
            reveal_strlit("HAS_METHOD");
            assert("ENTRY_POINT_OF"@.len() != "HAS_METHOD"@.len());
            reveal_strlit("HAS_PROPERTY");
            assert("ENTRY_POINT_OF"@.len() != "HAS_PROPERTY"@.len());
            reveal_strlit("ACCESSES");
            assert("ENTRY_POINT_OF"@.len() != "ACCESSES"@.len());
            reveal_strlit("MEMBER_OF");
            assert("ENTRY_POINT_OF"@.len() != "MEMBER_OF"@.len());
            reveal_strlit("STEP_IN_PROCESS");
            assert("ENTRY_POINT_OF"@.len() != "STEP_IN_PROCESS"@.len());
            reveal_strlit("HANDLES_ROUTE");
            assert("ENTRY_POINT_OF"@.len() != "HANDLES_ROUTE"@.len());
            reveal_strlit("FETCHES");
            assert("ENTRY_POINT_OF"@.len() != "FETCHES"@.len());
            reveal_strlit("HANDLES_TOOL");
            assert("ENTRY_POINT_OF"@.len() != "HANDLES_TOOL"@.len());
        },
        RelationType::Wraps => {
            reveal_strlit("WRAPS");
            reveal_strlit("CONTAINS");
            assert("WRAPS"@.len() != "CONTAINS"@.len());
            reveal_strlit("CALLS");
            assert("WRAPS"@[0] != "CALLS"@[0]);
            reveal_strlit("INHERITS");
            assert("WRAPS"@.len() != "INHERITS"@.len());
            reveal_strlit("OVERRIDES");
            assert("WRAPS"@.len() != "OVERRIDES"@.len());
            reveal_strlit("IMPORTS");
            assert("WRAPS"@.len() != "IMPORTS"@.len());
            reveal_strlit("USES");
            assert("WRAPS"@.len() != "USES"@.len());
            reveal_strlit("DEFINES");
            assert("WRAPS"@.len() != "DEFINES"@.len());
            reveal_strlit("DECORATES");
            assert("WRAPS"@.len() != "DECORATES"@.len());
            reveal_strlit("IMPLEMENTS");
            assert("WRAPS"@.len() != "IMPLEMENTS"@.len());
            reveal_strlit("EXTENDS");
            assert("WRAPS"@.len() != "EXTENDS"@.len());
            reveal_strlit("HAS_METHOD");
            assert("WRAPS"@.len() != "HAS_METHOD"@.len());
            reveal_strlit("HAS_PROPERTY");
            assert("WRAPS"@.len() != "HAS_PROPERTY"@.len());
            reveal_strlit("ACCESSES");
            assert("WRAPS"@.len() != "ACCESSES"@.len());
            reveal_strlit("MEMBER_OF");
            assert("WRAPS"@.len() != "MEMBER_OF"@.len());
            reveal_strlit("STEP_IN_PROCESS");
            assert("WRAPS"@.len() != "STEP_IN_PROCESS"@.len());
            reveal_strlit("HANDLES_ROUTE");
            assert("WRAPS"@.len() != "HANDLES_ROUTE"@.len());
            reveal_strlit("FETCHES");
            assert("WRAPS"@.len() != "FETCHES"@.len());
            reveal_strlit("HANDLES_TOOL");
            assert("WRAPS"@.len() != "HANDLES_TOOL"@.len());
            reveal_strlit("ENTRY_POINT_OF");
            assert("WRAPS"@.len() != "ENTRY_POINT_OF"@.len());
        },
        RelationType::Queries => {
            reveal_strlit("QUERIES");
            reveal_strlit("CONTAINS");
            assert("QUERIES"@.len() != "CONTAINS"@.len());
            reveal_strlit("CALLS");
            assert("QUERIES"@.len() != "CALLS"@.len());
            reveal_strlit("INHERITS");
            assert("QUERIES"@.len() != "INHERITS"@.len());
            reveal_strlit("OVERRIDES");
            assert("QUERIES"@.len() != "OVERRIDES"@.len());
            reveal_strlit("IMPORTS");
            assert("QUERIES"@[0] != "IMPORTS"@[0]);
            reveal_strlit("USES");
            assert("QUERIES"@.len() != "USES"@.len());
            reveal_strlit("DEFINES");
            assert("QUERIES"@[0] != "DEFINES"@[0]);
            reveal_strlit("DECORATES");
            assert("QUERIES"@.len() != "DECORATES"@.len());
            reveal_strlit("IMPLEMENTS");
            assert("QUERIES"@.len() != "IMPLEMENTS"@.len());
            reveal_strlit("EXTENDS");
            assert("QUERIES"@[0] != "EXTENDS"@[0]);
            reveal_strlit("HAS_METHOD");
            assert("QUERIES"@.len() != "HAS_METHOD"@.len());
            reveal_strlit("HAS_PROPERTY");
            assert("QUERIES"@.len() != "HAS_PROPERTY"@.len());
            reveal_strlit("ACCESSES");
            assert("QUERIES"@.len() != "ACCESSES"@.len());
            reveal_strlit("MEMBER_OF");
            assert("QUERIES"@.len() != "MEMBER_OF"@.len());
            reveal_strlit("STEP_IN_PROCESS");
            assert("QUERIES"@.len() != "STEP_IN_PROCESS"@.len());
            reveal_strlit("HANDLES_ROUTE");
            assert("QUERIES"@.len() != "HANDLES_ROUTE"@.len());
            reveal_strlit("FETCHES");
            assert("QUERIES"@[0] != "FETCHES"@[0]);
            reveal_strlit("HANDLES_TOOL");
            assert("QUERIES"@.len() != "HANDLES_TOOL"@.len());
            reveal_strlit("ENTRY_POINT_OF");
            assert("QUERIES"@.len() != "ENTRY_POINT_OF"@.len());
            reveal_strlit("WRAPS");
            assert("QUERIES"@.len() != "WRAPS"@.len());
        },
    }
}

/// A name is read as a relation type only when it is exactly that relation's name.
pub proof fn lemma_relation_from_name_exact(s: Seq<char>, r: RelationType)
    requires
        spec_relation_from_name(s) == Some(r),
    ensures
        s == relation_name(r),
{
}

/// A source language.
#[derive(Clone, Copy, Debug, PartialEq, Eq, Hash, Structural)]
pub enum Language {
    TypeScript,
    JavaScript,
    Python,
    Java,
    Kotlin,
    Go,
    Rust,
    CSharp,
    C,
    CPlusPlus,
    PHP,
    Ruby,
    Swift,
    Dart,
}

/// The name that `Language::as_str` gives a language.
pub open spec fn language_name(l: Language) -> Seq<char> {
    match l {
        Language::TypeScript => "typescript"@,
        Language::JavaScript => "javascript"@,
        Language::Python => "python"@,
        Language::Java => "java"@,
        Language::Kotlin => "kotlin"@,
        Language::Go => "go"@,
        Language::Rust => "rust"@,
        Language::CSharp => "csharp"@,
        Language::C => "c"@,
        Language::CPlusPlus => "cpp"@,
        Language::PHP => "php"@,
        Language::Ruby => "ruby"@,
        Language::Swift => "swift"@,
        Language::Dart => "dart"@,
    }
}

/// The language that a file extension (without the dot) denotes.
pub open spec fn spec_language_from_extension(e: Seq<char>) -> Option<Language> {
    if e == "ts"@ || e == "tsx"@ || e == "mts"@ || e == "cts"@ {
        Some(Language::TypeScript)
    } else if e == "js"@ || e == "jsx"@ || e == "mjs"@ || e == "cjs"@ {
        Some(Language::JavaScript)
    } else if e == "py"@ || e == "pyi"@ {
        Some(Language::Python)
    } else if e == "java"@ {
        Some(Language::Java)
    } else if e == "kt"@ || e == "kts"@ {
        Some(Language::Kotlin)
    } else if e == "go"@ {
        Some(Language::Go)
    } else if e == "rs"@ {
        Some(Language::Rust)
    } else if e == "cs"@ {
        Some(Language::CSharp)
    } else if e == "c"@ || e == "h"@ {
        Some(Language::C)
    } else if e == "cpp"@ || e == "cxx"@ || e == "cc"@ || e == "hpp"@ || e == "hxx"@ || e == "hh"@ {
        Some(Language::CPlusPlus)
    } else if e == "php"@ {
        Some(Language::PHP)
    } else if e == "rb"@ {
        Some(Language::Ruby)
    } else if e == "swift"@ {
        Some(Language::Swift)
    } else if e == "dart"@ {
        Some(Language::Dart)
    } else {
        None
    }
}

/// Every language, in declaration order.
pub open spec fn spec_all_languages() -> Seq<Language> {
    seq![Language::TypeScript, Language::JavaScript, Language::Python, Language::Java, Language::Kotlin, Language::Go, Language::Rust, Language::CSharp, Language::C, Language::CPlusPlus, Language::PHP, Language::Ruby, Language::Swift, Language::Dart]
}

impl Language {
    /// The language's name, e.g. `"typescript"`.
    pub fn as_str(&self) -> (r: &'static str)
        ensures
            r@ == language_name(*self),
    {
        match self {
            Language::TypeScript => "typescript",
            Language::JavaScript => "javascript",
            Language::Python => "python",
            Language::Java => "java",
            Language::Kotlin => "kotlin",
            Language::Go => "go",
            Language::Rust => "rust",
            Language::CSharp => "csharp",
            Language::C => "c",
            Language::CPlusPlus => "cpp",
            Language::PHP => "php",
            Language::Ruby => "ruby",
            Language::Swift => "swift",
            Language::Dart => "dart",
        }
    }

    /// Detect language from file extension.
    pub fn from_extension(ext: &str) -> (r: Option<Language>)
        ensures
            r == spec_language_from_extension(ext@),
    {
        if str_eq(ext, "ts") || str_eq(ext, "tsx") || str_eq(ext, "mts") || str_eq(ext, "cts") {
            Some(Language::TypeScript)
        } else if str_eq(ext, "js") || str_eq(ext, "jsx") || str_eq(ext, "mjs") || str_eq(ext, "cjs") {
            Some(Language::JavaScript)
        } else if str_eq(ext, "py") || str_eq(ext, "pyi") {
            Some(Language::Python)
        } else if str_eq(ext, "java") {
            Some(Language::Java)
        } else if str_eq(ext, "kt") || str_eq(ext, "kts") {
            Some(Language::Kotlin)
        } else if str_eq(ext, "go") {
            Some(Language::Go)
        } else if str_eq(ext, "rs") {
            Some(Language::Rust)
        } else if str_eq(ext, "cs") {
            Some(Language::CSharp)
        } else if str_eq(ext, "c") || str_eq(ext, "h") {
            Some(Language::C)
        } else if str_eq(ext, "cpp") || str_eq(ext, "cxx") || str_eq(ext, "cc") || str_eq(ext, "hpp") || str_eq(ext, "hxx") || str_eq(ext, "hh") {
            Some(Language::CPlusPlus)
        } else if str_eq(ext, "php") {
            Some(Language::PHP)
        } else if str_eq(ext, "rb") {
            Some(Language::Ruby)
        } else if str_eq(ext, "swift") {
            Some(Language::Swift)
        } else if str_eq(ext, "dart") {
            Some(Language::Dart)
        } else {
            None
        }
    }

    /// Every language, in declaration order.
    pub fn all() -> (r: Vec<Language>)
        ensures
            r@ == spec_all_languages(),
    {
        vec![Language::TypeScript, Language::JavaScript, Language::Python, Language::Java, Language::Kotlin, Language::Go, Language::Rust, Language::CSharp, Language::C, Language::CPlusPlus, Language::PHP, Language::Ruby, Language::Swift, Language::Dart]
    }
}

/// Every language occurs in `Language::all`, and only once.
pub proof fn lemma_all_languages_complete(l: Language)
    ensures
        spec_all_languages().contains(l),
        forall|i: int, j: int|
            0 <= i < j < spec_all_languages().len() ==> spec_all_languages()[i]
                != spec_all_languages()[j],
{
    let s = spec_all_languages();
    let k: int = match l {
        Language::TypeScript => 0,
        Language::JavaScript => 1,
        Language::Python => 2,
        Language::Java => 3,
        Language::Kotlin => 4,
        Language::Go => 5,
        Language::Rust => 6,
        Language::CSharp => 7,
        Language::C => 8,
        Language::CPlusPlus => 9,
        Language::PHP => 10,
        Language::Ruby => 11,
        Language::Swift => 12,
        Language::Dart => 13,
    };
    assert(s[k] == l);
}

/// Whether a heritage clause extends or implements its parent.
#[derive(Clone, Copy, Debug, PartialEq, Eq, Hash, Structural)]
pub enum HeritageKind {
    Extends,
    Implements,
}

/// An import statement found in a source file.
#[derive(Debug, Clone)]
pub struct ExtractedImport {
    pub source_file: String,
    pub imported_name: String,
    pub module_source: String,
    pub alias: Option<String>,
    pub is_default: bool,
    pub is_namespace: bool,
    pub line: u32,
}

/// A call found in a source file.
#[derive(Debug, Clone)]
pub struct ExtractedCall {
    pub caller_id: String,
    pub callee_name: String,
    pub receiver: Option<String>,
    pub file_path: String,
    pub line: u32,
    pub arguments_count: u32,
}

/// The content of a heritage clause.
pub struct HeritageView {
    pub child_id: Seq<char>,
    pub parent_name: Seq<char>,
    pub kind: HeritageKind,
    pub file_path: Seq<char>,
}

impl View for ExtractedHeritage {
    type V = HeritageView;

    open spec fn view(&self) -> HeritageView {
        HeritageView {
            child_id: self.child_id@,
            parent_name: self.parent_name@,
            kind: self.kind,
            file_path: self.file_path@,
        }
    }
}

/// An `extends`/`implements` clause found in a source file.
#[derive(Debug, Clone)]
pub struct ExtractedHeritage {
    pub child_id: String,
    pub parent_name: String,
    pub kind: HeritageKind,
    pub file_path: String,
}

} // verus!
