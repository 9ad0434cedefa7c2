//! Settings that the operations consume. Loading them from configuration
//! files is the caller's business; the library only reads the fields.

use vstd::prelude::*;

verus! {

/// Where documents live and how new ones are encoded.
pub struct Config {
    /// Directory that holds the documents; kept for the caller's use.
    pub adr_dir: String,
    /// Filename of the generated index, inside the document directory.
    pub index_name: String,
    /// Optional path of a template used for new documents.
    pub template: Option<String>,
    /// Storage extension of managed documents, e.g. `md`.
    pub format: String,
    /// Whether new and reformatted documents carry a front-matter block.
    pub front_matter: bool,
}

impl Default for Config {
    /// `docs/adr`, `index.md`, no template, plain `md` documents.
    fn default() -> (r: Config)
        ensures
            r.adr_dir@ == "docs/adr"@,
            r.index_name@ == "index.md"@,
            r.template is None,
            r.format@ == "md"@,
            r.front_matter == false,
    {
        Config {
            adr_dir: crate::text::string_of(&crate::text::chars_of("docs/adr")),
            index_name: crate::text::string_of(&crate::text::chars_of("index.md")),
            template: None,
            format: crate::text::string_of(&crate::text::chars_of("md")),
            front_matter: false,
        }
    }
}

impl Config {
    /// A field-for-field copy.
    pub fn duplicate(&self) -> (r: Config)
        ensures
            r.adr_dir@ == self.adr_dir@,
            r.index_name@ == self.index_name@,
            r.template == self.template,
            r.format@ == self.format@,
            r.front_matter == self.front_matter,
    {
        Config {
            adr_dir: self.adr_dir.clone(),
            index_name: self.index_name.clone(),
            template: match &self.template {
                Some(t) => Some(t.clone()),
                None => None,
            },
            format: self.format.clone(),
            front_matter: self.front_matter,
        }
    }
}

} // verus!
