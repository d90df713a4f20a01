//! The supported languages and, for each, the shapes of its functions.

use vstd::prelude::*;

verus! {

/// A supported source language.
#[derive(Clone, Copy, Debug, PartialEq, Eq, Structural)]
pub enum Language {
    Rust,
    Go,
    JavaScript,
    Python,
}

/// One function-like shape of a language: the kind of the node that denotes
/// the function, the kind of its child that holds the body, and the text
/// written in place of that body.
#[derive(Debug)]
pub struct FunctionSpec {
    pub function: String,
    pub function_body: String,
    pub replacement: String,
}

/// The function shapes of one language.
#[derive(Debug)]
pub struct LanguageGrammar {
    pub language: Language,
    pub function_specs: Vec<FunctionSpec>,
}

/// What a `FunctionSpec` holds, as plain values; the replacement as the
/// bytes that are written.
pub struct FunctionSpecView {
    pub function: Seq<char>,
    pub function_body: Seq<char>,
    pub replacement: Seq<u8>,
}

/// What a `LanguageGrammar` holds, as plain values.
pub struct GrammarView {
    pub language: Language,
    pub function_specs: Seq<FunctionSpecView>,
}

impl View for FunctionSpec {
    type V = FunctionSpecView;

    open spec fn view(&self) -> FunctionSpecView {
        FunctionSpecView {
            function: self.function@,
            function_body: self.function_body@,
            replacement: vstd::utf8::encode_utf8(self.replacement@),
        }
    }
}

impl View for LanguageGrammar {
    type V = GrammarView;

    open spec fn view(&self) -> GrammarView {
        GrammarView {
            language: self.language,
            function_specs: Seq::new(
                self.function_specs@.len(),
                |i: int| self.function_specs@[i]@,
            ),
        }
    }
}

impl GrammarView {
    /// No two specs of a grammar claim the same node kind.
    pub open spec fn wf(&self) -> bool {
        forall|i: int, j: int|
            0 <= i < j < self.function_specs.len() ==> self.function_specs[i].function
                != self.function_specs[j].function
    }

    /// The index of the first spec that claims the node kind `kind`.
    pub open spec fn spec_index(&self, kind: Seq<char>) -> Option<int> {
        first_claiming(self.function_specs, kind, 0)
    }
}

/// The grammar registered for `language`: one function shape.
pub open spec fn registered_grammar(language: Language) -> GrammarView {
    GrammarView {
        language,
        function_specs: seq![
            FunctionSpecView {
                function: function_kind_of(language),
                function_body: body_kind_of(language),
                replacement: vstd::utf8::encode_utf8(replacement_of(language)),
            },
        ],
    }
}

/// The language that a file extension stands for, if any.
pub open spec fn language_of_extension(ext: Seq<char>) -> Option<Language> {
    if ext == "rs"@ {
        Some(Language::Rust)
    } else if ext == "go"@ {
        Some(Language::Go)
    } else if ext == "js"@ {
        Some(Language::JavaScript)
    } else if ext == "py"@ {
        Some(Language::Python)
    } else {
        None
    }
}

/// The node kind of a function in the given language.
pub open spec fn function_kind_of(language: Language) -> Seq<char> {
    match language {
        Language::Rust => "function_item"@,
        Language::Go => "function_declaration"@,
        Language::JavaScript => "function_declaration"@,
        Language::Python => "function_definition"@,
    }
}

/// The node kind of a function's body in the given language.
pub open spec fn body_kind_of(language: Language) -> Seq<char> {
    match language {
        Language::Rust => "block"@,
        Language::Go => "block"@,
        Language::JavaScript => "statement_block"@,
        Language::Python => "block"@,
    }
}

/// The placeholder written for a function's body in the given language.
pub open spec fn replacement_of(language: Language) -> Seq<char> {
    match language {
        Language::Rust => "{ ... }"@,
        Language::Go => "{ ... }"@,
        Language::JavaScript => "{ ... }"@,
        Language::Python => "..."@,
    }
}

impl LanguageGrammar {
    /// Whether no two specs claim the same node kind.
    pub fn is_valid(&self) -> (ok: bool)
        ensures
            ok == self@.wf(),
    {
        let n: usize = self.function_specs.len();
        let mut j: usize = 0;
        while j < n
            invariant
                n == self@.function_specs.len(),
                n == self.function_specs@.len(),
                j <= n,
                forall|a: int, b: int|
                    0 <= a < b < j ==> self@.function_specs[a].function
                        != self@.function_specs[b].function,
            decreases n - j,
        {
            let mut i: usize = 0;
            while i < j
                invariant
                    n == self@.function_specs.len(),
                    n == self.function_specs@.len(),
                    i <= j < n,
                    forall|a: int|
                        0 <= a < i ==> self@.function_specs[a].function
                            != self@.function_specs[j as int].function,
                decreases j - i,
            {
                if self.function_specs[i].function == self.function_specs[j].function {
                    assert(self@.function_specs[i as int].function
                        == self@.function_specs[j as int].function);
                    return false;
                }
                i += 1;
            }
            j += 1;
        }
        true
    }

    /// The first spec that claims the node kind `kind`, by its index.
    pub fn find_spec(&self, kind: &String) -> (found: Option<usize>)
        ensures
            match found {
                Some(k) => self@.spec_index(kind@) == Some(k as int) && k
                    < self.function_specs@.len(),
                None => self@.spec_index(kind@).is_none(),
            },
    {
        let n: usize = self.function_specs.len();
        let mut k: usize = 0;
        while k < n
            invariant
                n == self.function_specs@.len(),
                k <= n,
                first_claiming(self@.function_specs, kind@, 0) == first_claiming(
                    self@.function_specs,
                    kind@,
                    k as int,
                ),
            decreases n - k,
        {
            if self.function_specs[k].function == *kind {
                return Some(k);
            }
            k += 1;
        }
        None
    }
}

/// The least index at or after `from` whose spec claims `kind`.
pub open spec fn first_claiming(specs: Seq<FunctionSpecView>, kind: Seq<char>, from: int) -> Option<int>
    decreases specs.len() - from,
{
    if from < 0 || from >= specs.len() {
        None
    } else if specs[from].function == kind {
        Some(from)
    } else {
        first_claiming(specs, kind, from + 1)
    }
}

impl Language {
    /// The language of a file with the extension `ext`: `rs`, `go`, `js` and
    /// `py` are known, every other extension is not.
    pub fn from_extension(ext: &str) -> (language: Option<Language>)
        ensures
            language == language_of_extension(ext@),
    {
        let ext: String = ext.to_owned();
        if ext == "rs".to_owned() {
            Some(Language::Rust)
        } else if ext == "go".to_owned() {
            Some(Language::Go)
        } else if ext == "js".to_owned() {
            Some(Language::JavaScript)
        } else if ext == "py".to_owned() {
            Some(Language::Python)
        } else {
            None
        }
    }

    /// The grammar registered for this language: one function shape each.
    pub fn get_grammar(&self) -> (grammar: Option<LanguageGrammar>)
        ensures
            grammar.is_some(),
            grammar.unwrap()@ == registered_grammar(*self),
            grammar.unwrap()@.wf(),
    {
        let spec = match self {
            Language::Rust => FunctionSpec {
                function: "function_item".to_owned(),
                function_body: "block".to_owned(),
                replacement: "{ ... }".to_owned(),
            },
            Language::Go => FunctionSpec {
                function: "function_declaration".to_owned(),
                function_body: "block".to_owned(),
                replacement: "{ ... }".to_owned(),
            },
            Language::JavaScript => FunctionSpec {
                function: "function_declaration".to_owned(),
                function_body: "statement_block".to_owned(),
                replacement: "{ ... }".to_owned(),
            },
            Language::Python => FunctionSpec {
                function: "function_definition".to_owned(),
                function_body: "block".to_owned(),
                replacement: "...".to_owned(),
            },
        };
        let mut function_specs: Vec<FunctionSpec> = Vec::new();
        function_specs.push(spec);
        let grammar = LanguageGrammar { language: *self, function_specs };
        assert(grammar@.function_specs =~= registered_grammar(*self).function_specs);
        Some(grammar)
    }
}

} // verus!
