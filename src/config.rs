//! Options of a run, as an outside loader hands them over.
use vstd::prelude::*;
use crate::text::same_text;

verus! {

/// Options for generating a document or injecting one back.
#[derive(Debug, Clone)]
pub struct Config {
    /// Path to the code repository.
    pub path: Option<String>,
    /// Glob patterns to ignore.
    pub ignore: Option<Vec<String>>,
    /// File path to write the generated document to.
    pub output: Option<String>,
    /// Delimiter of code blocks (three backticks when absent).
    pub delimiter: Option<String>,
    /// Language of the repository (e.g. "rust", "python").
    pub language: Option<String>,
    /// Lines written verbatim before anything else.
    pub prompts: Option<Vec<String>>,
    /// Only signatures and docstrings are extracted.
    pub docs_comments_only: Option<bool>,
    /// Patterns of files that keep their full content in a docs-only run.
    pub docs_ignore: Option<Vec<String>>,
    /// Whether the VCS ignore file is consulted (yes when absent).
    pub use_gitignore: Option<bool>,
    /// Whether notebook cell outputs are included.
    pub display_outputs: Option<bool>,
}

/// Key of the configuration used when none is named.
pub const DEFAULT_CONFIG_KEY: &'static str = "base";

pub open spec fn default_output_name() -> Seq<char> {
    seq!['p', 'r', 'm', 'p', 't', '.', 'o', 'u', 't']
}

/// Name of the output file of a run.
pub open spec fn output_name(c: Config) -> Seq<char> {
    match c.output {
        Some(o) => o@,
        None => default_output_name(),
    }
}

/// Delimiter of a run.
pub open spec fn delimiter_of(c: Config) -> Seq<char> {
    match c.delimiter {
        Some(d) => d@,
        None => seq!['`', '`', '`'],
    }
}

/// Whether the VCS ignore file is consulted.
pub open spec fn respects_vcs_ignore(c: Config) -> bool {
    match c.use_gitignore {
        Some(b) => b,
        None => true,
    }
}

impl Config {
    /// The output file name, `prmpt.out` when none is set.
    pub fn output_name(&self) -> (r: String)
        ensures
            r@ == output_name(*self),
    {
        match &self.output {
            Some(o) => o.clone(),
            None => {
                let r = String::from_str("prmpt.out");
                proof {
                    reveal_strlit("prmpt.out");
                    assert(r@ =~= default_output_name());
                }
                r
            },
        }
    }

    /// The delimiter, three backticks when none is set.
    pub fn delimiter(&self) -> (r: String)
        ensures
            r@ == delimiter_of(*self),
    {
        match &self.delimiter {
            Some(d) => d.clone(),
            None => {
                let r = String::from_str("```");
                proof {
                    reveal_strlit("```");
                    assert(r@ =~= seq!['`', '`', '`']);
                }
                r
            },
        }
    }
}

/// The configuration used when none is given: the current directory, output to
/// `prmpt.out`, three backticks, the VCS ignore file respected.
pub fn create_default_base_config() -> (c: Config)
    ensures
        c.path is Some && c.path->0@ == "."@,
        c.ignore is None,
        c.output is Some && c.output->0@ == default_output_name(),
        c.delimiter is Some && c.delimiter->0@ == "```"@,
        c.language is None,
        c.prompts is None,
        c.docs_comments_only is None,
        c.docs_ignore is None,
        c.use_gitignore == Some(true),
        c.display_outputs is None,
{
    let out = String::from_str("prmpt.out");
    proof {
        reveal_strlit("prmpt.out");
        assert(out@ =~= default_output_name());
    }
    Config {
        path: Some(String::from_str(".")),
        ignore: None,
        output: Some(out),
        delimiter: Some(String::from_str("```")),
        language: None,
        prompts: None,
        docs_comments_only: None,
        docs_ignore: None,
        use_gitignore: Some(true),
        display_outputs: None,
    }
}

/// The names of the fields of [`Config`].
pub open spec fn config_fields() -> Seq<Seq<char>> {
    seq![
        "path"@,
        "ignore"@,
        "output"@,
        "delimiter"@,
        "language"@,
        "prompts"@,
        "docs_comments_only"@,
        "docs_ignore"@,
        "use_gitignore"@,
        "display_outputs"@,
    ]
}

/// Whether `key` names a field of [`Config`].
pub fn is_config_field(key: &str) -> (r: bool)
    ensures
        r == config_fields().contains(key@),
{
    let names = [
        "path",
        "ignore",
        "output",
        "delimiter",
        "language",
        "prompts",
        "docs_comments_only",
        "docs_ignore",
        "use_gitignore",
        "display_outputs",
    ];
    let ghost fields = config_fields();
    assert(forall|i: int| 0 <= i < 10 ==> #[trigger] names@[i]@ == fields[i]);
    let mut i: usize = 0;
    while i < 10
        invariant
            i <= 10,
            fields == config_fields(),
            forall|j: int| 0 <= j < 10 ==> #[trigger] names@[j]@ == fields[j],
            forall|j: int| 0 <= j < i ==> fields[j] != key@,
        decreases 10 - i,
    {
        if same_text(names[i], key) {
            assert(fields[i as int] == key@);
            return true;
        }
        i = i + 1;
    }
    assert(!fields.contains(key@)) by {
        if fields.contains(key@) {
            let j = choose|j: int| 0 <= j < fields.len() && fields[j] == key@;
        }
    }
    false
}

/// How the top-level keys of a configuration file are read.
#[derive(Debug, PartialEq, Eq, Structural, Clone, Copy)]
pub enum ConfigLayout {
    /// Every key is a field: the file is one configuration, stored as `base`.
    Single,
    /// No key is a field: each key names a configuration.
    Named,
    /// Field keys make up `base`; the other keys name configurations.
    Mixed,
}

/// The layout that the top-level `keys` of a configuration file call for.
pub fn config_layout(keys: &Vec<String>) -> (r: ConfigLayout)
    ensures
        r == ConfigLayout::Single <==> (forall|i: int|
            0 <= i < keys@.len() ==> config_fields().contains(#[trigger] keys@[i]@)) && keys@.len()
            > 0,
        r == ConfigLayout::Named <==> (forall|i: int|
            0 <= i < keys@.len() ==> !config_fields().contains(#[trigger] keys@[i]@)),
{
    let mut fields: usize = 0;
    let mut others: usize = 0;
    let mut i: usize = 0;
    while i < keys.len()
        invariant
            i <= keys@.len(),
            fields + others == i,
            (fields == 0) <==> (forall|j: int|
                0 <= j < i ==> !config_fields().contains(#[trigger] keys@[j]@)),
            (others == 0) <==> (forall|j: int|
                0 <= j < i ==> config_fields().contains(#[trigger] keys@[j]@)),
        decreases keys@.len() - i,
    {
        if is_config_field(keys[i].as_str()) {
            fields = fields + 1;
        } else {
            others = others + 1;
        }
        i = i + 1;
    }
    if fields == 0 {
        ConfigLayout::Named
    } else if others == 0 {
        ConfigLayout::Single
    } else {
        ConfigLayout::Mixed
    }
}

} // verus!
