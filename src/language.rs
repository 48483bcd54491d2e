//! Language tags for syntax highlighting, found from a file's extension.
use vstd::prelude::*;

verus! {

/// Whether two texts hold the same chars.
pub fn text_is(a: &str, b: &str) -> (r: bool)
    ensures
        r == (a@ == b@),
{
    let n = a.unicode_len();
    if n != b.unicode_len() {
        return false;
    }
    let mut i: usize = 0;
    while i < n
        invariant
            i <= n,
            n == a@.len(),
            n == b@.len(),
            forall|j: int| 0 <= j < i ==> #[trigger] a@[j] == b@[j],
        decreases n - i,
    {
        if a.get_char(i) != b.get_char(i) {
            return false;
        }
        i = i + 1;
    }
    assert(a@ =~= b@);
    true
}

/// The language tag of a file extension, for the extensions the editor knows.
pub open spec fn language_of_extension(s: Seq<char>) -> Option<Seq<char>> {
    if s == "rs"@ {
        Some("rust"@)
    } else if s == "py"@ {
        Some("python"@)
    } else if s == "js"@ {
        Some("javascript"@)
    } else if s == "ts"@ {
        Some("typescript"@)
    } else if s == "jsx"@ {
        Some("javascript"@)
    } else if s == "tsx"@ {
        Some("typescript"@)
    } else if s == "c"@ {
        Some("c"@)
    } else if s == "h"@ {
        Some("c"@)
    } else if s == "cpp"@ {
        Some("cpp"@)
    } else if s == "cc"@ {
        Some("cpp"@)
    } else if s == "cxx"@ {
        Some("cpp"@)
    } else if s == "hpp"@ {
        Some("cpp"@)
    } else if s == "go"@ {
        Some("go"@)
    } else if s == "java"@ {
        Some("java"@)
    } else if s == "rb"@ {
        Some("ruby"@)
    } else if s == "php"@ {
        Some("php"@)
    } else if s == "swift"@ {
        Some("swift"@)
    } else if s == "kt"@ {
        Some("kotlin"@)
    } else if s == "kts"@ {
        Some("kotlin"@)
    } else if s == "scala"@ {
        Some("scala"@)
    } else if s == "hs"@ {
        Some("haskell"@)
    } else if s == "ml"@ {
        Some("ocaml"@)
    } else if s == "mli"@ {
        Some("ocaml"@)
    } else if s == "ex"@ {
        Some("elixir"@)
    } else if s == "exs"@ {
        Some("elixir"@)
    } else if s == "erl"@ {
        Some("erlang"@)
    } else if s == "hrl"@ {
        Some("erlang"@)
    } else if s == "clj"@ {
        Some("clojure"@)
    } else if s == "cljs"@ {
        Some("clojure"@)
    } else if s == "lua"@ {
        Some("lua"@)
    } else if s == "sh"@ {
        Some("bash"@)
    } else if s == "bash"@ {
        Some("bash"@)
    } else if s == "zsh"@ {
        Some("bash"@)
    } else if s == "fish"@ {
        Some("fish"@)
    } else if s == "ps1"@ {
        Some("powershell"@)
    } else if s == "sql"@ {
        Some("sql"@)
    } else if s == "html"@ {
        Some("html"@)
    } else if s == "htm"@ {
        Some("html"@)
    } else if s == "css"@ {
        Some("css"@)
    } else if s == "scss"@ {
        Some("scss"@)
    } else if s == "sass"@ {
        Some("scss"@)
    } else if s == "less"@ {
        Some("less"@)
    } else if s == "json"@ {
        Some("json"@)
    } else if s == "yaml"@ {
        Some("yaml"@)
    } else if s == "yml"@ {
        Some("yaml"@)
    } else if s == "toml"@ {
        Some("toml"@)
    } else if s == "xml"@ {
        Some("xml"@)
    } else if s == "md"@ {
        Some("markdown"@)
    } else if s == "markdown"@ {
        Some("markdown"@)
    } else if s == "tex"@ {
        Some("latex"@)
    } else if s == "vim"@ {
        Some("vim"@)
    } else if s == "dockerfile"@ {
        Some("dockerfile"@)
    } else if s == "Dockerfile"@ {
        Some("dockerfile"@)
    } else if s == "makefile"@ {
        Some("makefile"@)
    } else if s == "Makefile"@ {
        Some("makefile"@)
    } else {
        None
    }
}

/// The language tag of a file extension.
pub fn language_for_extension(ext: &str) -> (r: Option<String>)
    ensures
        match r {
            Some(l) => language_of_extension(ext@) == Some(l@),
            None => language_of_extension(ext@) is None,
        },
{
    if text_is(ext, "rs") {
        return Some("rust".to_owned());
    }
    if text_is(ext, "py") {
        return Some("python".to_owned());
    }
    if text_is(ext, "js") {
        return Some("javascript".to_owned());
    }
    if text_is(ext, "ts") {
        return Some("typescript".to_owned());
    }
    if text_is(ext, "jsx") {
        return Some("javascript".to_owned());
    }
    if text_is(ext, "tsx") {
        return Some("typescript".to_owned());
    }
    if text_is(ext, "c") {
        return Some("c".to_owned());
    }
    if text_is(ext, "h") {
        return Some("c".to_owned());
    }
    if text_is(ext, "cpp") {
        return Some("cpp".to_owned());
    }
    if text_is(ext, "cc") {
        return Some("cpp".to_owned());
    }
    if text_is(ext, "cxx") {
        return Some("cpp".to_owned());
    }
    if text_is(ext, "hpp") {
        return Some("cpp".to_owned());
    }
    if text_is(ext, "go") {
        return Some("go".to_owned());
    }
    if text_is(ext, "java") {
        return Some("java".to_owned());
    }
    if text_is(ext, "rb") {
        return Some("ruby".to_owned());
    }
    if text_is(ext, "php") {
        return Some("php".to_owned());
    }
    if text_is(ext, "swift") {
        return Some("swift".to_owned());
    }
    if text_is(ext, "kt") {
        return Some("kotlin".to_owned());
    }
    if text_is(ext, "kts") {
        return Some("kotlin".to_owned());
    }
    if text_is(ext, "scala") {
        return Some("scala".to_owned());
    }
    if text_is(ext, "hs") {
        return Some("haskell".to_owned());
    }
    if text_is(ext, "ml") {
        return Some("ocaml".to_owned());
    }
    if text_is(ext, "mli") {
        return Some("ocaml".to_owned());
    }
    if text_is(ext, "ex") {
        return Some("elixir".to_owned());
    }
    if text_is(ext, "exs") {
        return Some("elixir".to_owned());
    }
    if text_is(ext, "erl") {
        return Some("erlang".to_owned());
    }
    if text_is(ext, "hrl") {
        return Some("erlang".to_owned());
    }
    if text_is(ext, "clj") {
        return Some("clojure".to_owned());
    }
    if text_is(ext, "cljs") {
        return Some("clojure".to_owned());
    }
    if text_is(ext, "lua") {
        return Some("lua".to_owned());
    }
    if text_is(ext, "sh") {
        return Some("bash".to_owned());
    }
    if text_is(ext, "bash") {
        return Some("bash".to_owned());
    }
    if text_is(ext, "zsh") {
        return Some("bash".to_owned());
    }
    if text_is(ext, "fish") {
        return Some("fish".to_owned());
    }
    if text_is(ext, "ps1") {
        return Some("powershell".to_owned());
    }
    if text_is(ext, "sql") {
        return Some("sql".to_owned());
    }
    if text_is(ext, "html") {
        return Some("html".to_owned());
    }
    if text_is(ext, "htm") {
        return Some("html".to_owned());
    }
    if text_is(ext, "css") {
        return Some("css".to_owned());
    }
    if text_is(ext, "scss") {
        return Some("scss".to_owned());
    }
    if text_is(ext, "sass") {
        return Some("scss".to_owned());
    }
    if text_is(ext, "less") {
        return Some("less".to_owned());
    }
    if text_is(ext, "json") {
        return Some("json".to_owned());
    }
    if text_is(ext, "yaml") {
        return Some("yaml".to_owned());
    }
    if text_is(ext, "yml") {
        return Some("yaml".to_owned());
    }
    if text_is(ext, "toml") {
        return Some("toml".to_owned());
    }
    if text_is(ext, "xml") {
        return Some("xml".to_owned());
    }
    if text_is(ext, "md") {
        return Some("markdown".to_owned());
    }
    if text_is(ext, "markdown") {
        return Some("markdown".to_owned());
    }
    if text_is(ext, "tex") {
        return Some("latex".to_owned());
    }
    if text_is(ext, "vim") {
        return Some("vim".to_owned());
    }
    if text_is(ext, "dockerfile") {
        return Some("dockerfile".to_owned());
    }
    if text_is(ext, "Dockerfile") {
        return Some("dockerfile".to_owned());
    }
    if text_is(ext, "makefile") {
        return Some("makefile".to_owned());
    }
    if text_is(ext, "Makefile") {
        return Some("makefile".to_owned());
    }
    None
}

/// The extension of the last component of a path, if it has one.
pub uninterp spec fn extension_of(path: Seq<char>) -> Option<Seq<char>>;

/// Relies on `Path::extension`: the part of the file name after its last
/// dot, if there is one (and it is valid UTF-8, as a `&str` always is).
#[verifier::external_body]
fn path_extension(path: &str) -> (r: Option<String>)
    ensures
        match r {
            Some(e) => extension_of(path@) == Some(e@),
            None => extension_of(path@) is None,
        },
{
    std::path::Path::new(path).extension().and_then(|e| e.to_str()).map(String::from)
}

/// The language tag for a file at `path`, from its extension.
pub fn detect_language(path: &str) -> (r: Option<String>)
    ensures
        match extension_of(path@) {
            Some(e) => match r {
                Some(l) => language_of_extension(e) == Some(l@),
                None => language_of_extension(e) is None,
            },
            None => r is None,
        },
{
    match path_extension(path) {
        Some(ext) => language_for_extension(ext.as_str()),
        None => None,
    }
}

} // verus!
