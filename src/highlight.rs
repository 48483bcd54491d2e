//! Highlight categories that syntax highlighting reports for spans of text.
use crate::language::text_is;
use vstd::prelude::*;

verus! {

/// A highlight category, for theming.
#[derive(Debug, Clone, Copy, PartialEq, Eq, Hash, Structural)]
pub enum Highlight {
    Keyword,
    Function,
    Type,
    Variable,
    Constant,
    String,
    Number,
    Comment,
    Operator,
    Punctuation,
    Property,
    Parameter,
    Label,
    Namespace,
    Attribute,
}

/// The category of a highlight query's capture name, for the names the editor knows.
pub open spec fn highlight_of_capture(s: Seq<char>) -> Option<Highlight> {
    if s == "keyword"@ {
        Some(Highlight::Keyword)
    } else if s == "keyword.control"@ {
        Some(Highlight::Keyword)
    } else if s == "keyword.function"@ {
        Some(Highlight::Keyword)
    } else if s == "keyword.operator"@ {
        Some(Highlight::Keyword)
    } else if s == "keyword.return"@ {
        Some(Highlight::Keyword)
    } else if s == "keyword.import"@ {
        Some(Highlight::Keyword)
    } else if s == "keyword.export"@ {
        Some(Highlight::Keyword)
    } else if s == "keyword.modifier"@ {
        Some(Highlight::Keyword)
    } else if s == "keyword.type"@ {
        Some(Highlight::Keyword)
    } else if s == "keyword.storage"@ {
        Some(Highlight::Keyword)
    } else if s == "keyword.coroutine"@ {
        Some(Highlight::Keyword)
    } else if s == "function"@ {
        Some(Highlight::Function)
    } else if s == "function.call"@ {
        Some(Highlight::Function)
    } else if s == "function.method"@ {
        Some(Highlight::Function)
    } else if s == "function.builtin"@ {
        Some(Highlight::Function)
    } else if s == "function.macro"@ {
        Some(Highlight::Function)
    } else if s == "method"@ {
        Some(Highlight::Function)
    } else if s == "method.call"@ {
        Some(Highlight::Function)
    } else if s == "type"@ {
        Some(Highlight::Type)
    } else if s == "type.builtin"@ {
        Some(Highlight::Type)
    } else if s == "type.parameter"@ {
        Some(Highlight::Type)
    } else if s == "type.qualifier"@ {
        Some(Highlight::Type)
    } else if s == "constructor"@ {
        Some(Highlight::Type)
    } else if s == "variable"@ {
        Some(Highlight::Variable)
    } else if s == "variable.builtin"@ {
        Some(Highlight::Variable)
    } else if s == "variable.parameter"@ {
        Some(Highlight::Variable)
    } else if s == "variable.member"@ {
        Some(Highlight::Variable)
    } else if s == "constant"@ {
        Some(Highlight::Constant)
    } else if s == "constant.builtin"@ {
        Some(Highlight::Constant)
    } else if s == "boolean"@ {
        Some(Highlight::Constant)
    } else if s == "string"@ {
        Some(Highlight::String)
    } else if s == "string.special"@ {
        Some(Highlight::String)
    } else if s == "string.escape"@ {
        Some(Highlight::String)
    } else if s == "character"@ {
        Some(Highlight::String)
    } else if s == "number"@ {
        Some(Highlight::Number)
    } else if s == "float"@ {
        Some(Highlight::Number)
    } else if s == "comment"@ {
        Some(Highlight::Comment)
    } else if s == "comment.line"@ {
        Some(Highlight::Comment)
    } else if s == "comment.block"@ {
        Some(Highlight::Comment)
    } else if s == "comment.documentation"@ {
        Some(Highlight::Comment)
    } else if s == "operator"@ {
        Some(Highlight::Operator)
    } else if s == "punctuation"@ {
        Some(Highlight::Punctuation)
    } else if s == "punctuation.bracket"@ {
        Some(Highlight::Punctuation)
    } else if s == "punctuation.delimiter"@ {
        Some(Highlight::Punctuation)
    } else if s == "punctuation.special"@ {
        Some(Highlight::Punctuation)
    } else if s == "property"@ {
        Some(Highlight::Property)
    } else if s == "field"@ {
        Some(Highlight::Property)
    } else if s == "parameter"@ {
        Some(Highlight::Parameter)
    } else if s == "label"@ {
        Some(Highlight::Label)
    } else if s == "namespace"@ {
        Some(Highlight::Namespace)
    } else if s == "module"@ {
        Some(Highlight::Namespace)
    } else if s == "attribute"@ {
        Some(Highlight::Attribute)
    } else if s == "tag"@ {
        Some(Highlight::Attribute)
    } else if s == "tag.attribute"@ {
        Some(Highlight::Attribute)
    } else {
        None
    }
}

impl Highlight {
    /// The category of a capture name.
    pub fn from_capture(name: &str) -> (r: Option<Highlight>)
        ensures
            r == highlight_of_capture(name@),
    {
        if text_is(name, "keyword") {
            return Some(Highlight::Keyword);
        }
        if text_is(name, "keyword.control") {
            return Some(Highlight::Keyword);
        }
        if text_is(name, "keyword.function") {
            return Some(Highlight::Keyword);
        }
        if text_is(name, "keyword.operator") {
            return Some(Highlight::Keyword);
        }
        if text_is(name, "keyword.return") {
            return Some(Highlight::Keyword);
        }
        if text_is(name, "keyword.import") {
            return Some(Highlight::Keyword);
        }
        if text_is(name, "keyword.export") {
            return Some(Highlight::Keyword);
        }
        if text_is(name, "keyword.modifier") {
            return Some(Highlight::Keyword);
        }
        if text_is(name, "keyword.type") {
            return Some(Highlight::Keyword);
        }
        if text_is(name, "keyword.storage") {
            return Some(Highlight::Keyword);
        }
        if text_is(name, "keyword.coroutine") {
            return Some(Highlight::Keyword);
        }
        if text_is(name, "function") {
            return Some(Highlight::Function);
        }
        if text_is(name, "function.call") {
            return Some(Highlight::Function);
        }
        if text_is(name, "function.method") {
            return Some(Highlight::Function);
        }
        if text_is(name, "function.builtin") {
            return Some(Highlight::Function);
        }
        if text_is(name, "function.macro") {
            return Some(Highlight::Function);
        }
        if text_is(name, "method") {
            return Some(Highlight::Function);
        }
        if text_is(name, "method.call") {
            return Some(Highlight::Function);
        }
        if text_is(name, "type") {
            return Some(Highlight::Type);
        }
        if text_is(name, "type.builtin") {
            return Some(Highlight::Type);
        }
        if text_is(name, "type.parameter") {
            return Some(Highlight::Type);
        }
        if text_is(name, "type.qualifier") {
            return Some(Highlight::Type);
        }
        if text_is(name, "constructor") {
            return Some(Highlight::Type);
        }
        if text_is(name, "variable") {
            return Some(Highlight::Variable);
        }
        if text_is(name, "variable.builtin") {
            return Some(Highlight::Variable);
        }
        if text_is(name, "variable.parameter") {
            return Some(Highlight::Variable);
        }
        if text_is(name, "variable.member") {
            return Some(Highlight::Variable);
        }
        if text_is(name, "constant") {
            return Some(Highlight::Constant);
        }
        if text_is(name, "constant.builtin") {
            return Some(Highlight::Constant);
        }
        if text_is(name, "boolean") {
            return Some(Highlight::Constant);
        }
        if text_is(name, "string") {
            return Some(Highlight::String);
        }
        if text_is(name, "string.special") {
            return Some(Highlight::String);
        }
        if text_is(name, "string.escape") {
            return Some(Highlight::String);
        }
        if text_is(name, "character") {
            return Some(Highlight::String);
        }
        if text_is(name, "number") {
            return Some(Highlight::Number);
        }
        if text_is(name, "float") {
            return Some(Highlight::Number);
        }
        if text_is(name, "comment") {
            return Some(Highlight::Comment);
        }
        if text_is(name, "comment.line") {
            return Some(Highlight::Comment);
        }
        if text_is(name, "comment.block") {
            return Some(Highlight::Comment);
        }
        if text_is(name, "comment.documentation") {
            return Some(Highlight::Comment);
        }
        if text_is(name, "operator") {
            return Some(Highlight::Operator);
        }
        if text_is(name, "punctuation") {
            return Some(Highlight::Punctuation);
        }
        if text_is(name, "punctuation.bracket") {
            return Some(Highlight::Punctuation);
        }
        if text_is(name, "punctuation.delimiter") {
            return Some(Highlight::Punctuation);
        }
        if text_is(name, "punctuation.special") {
            return Some(Highlight::Punctuation);
        }
        if text_is(name, "property") {
            return Some(Highlight::Property);
        }
        if text_is(name, "field") {
            return Some(Highlight::Property);
        }
        if text_is(name, "parameter") {
            return Some(Highlight::Parameter);
        }
        if text_is(name, "label") {
            return Some(Highlight::Label);
        }
        if text_is(name, "namespace") {
            return Some(Highlight::Namespace);
        }
        if text_is(name, "module") {
            return Some(Highlight::Namespace);
        }
        if text_is(name, "attribute") {
            return Some(Highlight::Attribute);
        }
        if text_is(name, "tag") {
            return Some(Highlight::Attribute);
        }
        if text_is(name, "tag.attribute") {
            return Some(Highlight::Attribute);
        }
        None
    }
}

/// A highlighted span of the text, by byte offsets.
#[derive(Debug, Clone, Copy, PartialEq, Eq, Structural)]
pub struct HighlightSpan {
    pub start: usize,
    pub end: usize,
    pub highlight: Highlight,
}

} // verus!
