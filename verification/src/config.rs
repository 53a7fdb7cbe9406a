//! Shared configuration: the exclusion list consulted by every walk, and the
//! switch for the external analysis collaborator.
use vstd::prelude::*;

verus! {

/// Mathematical model of a [`Config`].
pub ghost struct ConfigView {
    pub use_ai_analysis: bool,
    pub ollama_model: Seq<char>,
    pub ollama_url: Seq<char>,
    pub excluded_paths: Seq<Seq<char>>,
}

impl ConfigView {
    /// The exclusion predicate: exact membership of the path in the
    /// configured exclusion list.
    pub open spec fn is_excluded(self, path: Seq<char>) -> bool {
        exists|i: int| 0 <= i < self.excluded_paths.len() && self.excluded_paths[i] == path
    }
}

pub struct Config {
    pub use_ai_analysis: bool,
    pub ollama_model: String,
    pub ollama_url: String,
    pub excluded_paths: Vec<String>,
}

impl View for Config {
    type V = ConfigView;

    open spec fn view(&self) -> ConfigView {
        ConfigView {
            use_ai_analysis: self.use_ai_analysis,
            ollama_model: self.ollama_model@,
            ollama_url: self.ollama_url@,
            excluded_paths: self.excluded_paths.deep_view(),
        }
    }
}

impl Config {
    /// Builds the configuration from the stored settings file, or the
    /// conservative default when no such file is present.  The caller probes
    /// for the file and reports the outcome in `config_exists`; reading the
    /// settings themselves is not implemented, so a present file only
    /// switches the external analysis on.
    pub fn load_or_create(config_exists: bool) -> (r: Config)
        ensures
            r@.use_ai_analysis == config_exists,
            r@.ollama_model == "default-model"@,
            r@.ollama_url == "http://localhost:11434"@,
            r@.excluded_paths == Seq::<Seq<char>>::empty(),
    {
        let r = Config {
            use_ai_analysis: config_exists,
            ollama_model: "default-model".to_owned(),
            ollama_url: "http://localhost:11434".to_owned(),
            excluded_paths: Vec::new(),
        };
        proof {
            assert(r.excluded_paths.deep_view() =~= Seq::<Seq<char>>::empty());
        }
        r
    }

    /// Exact membership test of `path` in the exclusion list.
    pub fn is_path_excluded(&self, path: &str) -> (r: bool)
        ensures
            r == self@.is_excluded(path@),
    {
        let n: usize = self.excluded_paths.len();
        let mut i: usize = 0;
        while i < n
            invariant
                n == self.excluded_paths@.len(),
                i <= n,
                forall|k: int| 0 <= k < i ==> self@.excluded_paths[k] != path@,
            decreases n - i,
        {
            if crate::text::str_eq(self.excluded_paths[i].as_str(), path) {
                proof {
                    assert(self@.excluded_paths[i as int] == path@);
                }
                return true;
            }
            i = i + 1;
        }
        false
    }
}

} // verus!
