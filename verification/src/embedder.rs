//! Which embedding backend a vault asks for (the `embedder` block of its `config.json`) and the
//! decision of what to build for it. Loading a model and embedding text happen outside.

use vstd::prelude::*;

verus! {

/// The embedding width used when none is configured (that of the bundled BGE-small model).
pub const FALLBACK_DIM: usize = 384;

/// Where the embedding model comes from. An absent embedder block means `Bundled`.
#[derive(Debug, Clone, PartialEq, Eq)]
pub enum EmbedderSource {
    /// The model vendored with the build (the default).
    Bundled,
    /// A local ONNX model directory.
    Local {
        /// Directory containing the model and tokenizer files.
        path: String,
        /// Embedding width; `FALLBACK_DIM` when omitted.
        dim: Option<usize>,
    },
    /// A remote OpenAI-compatible embeddings endpoint.
    Remote {
        /// Full endpoint URL.
        url: String,
        /// Model name to request from the server.
        model: String,
        /// Environment variable holding the bearer token, if any.
        api_key_env: Option<String>,
        /// Embedding width; probed from the server when omitted.
        dim: Option<usize>,
    },
    /// The offline, dependency-free hash embedder.
    Hash,
}

impl Default for EmbedderSource {
    fn default() -> (r: EmbedderSource)
        ensures
            r is Bundled,
    {
        EmbedderSource::Bundled
    }
}

/// The vault's `config.json` schema; only the embedder block exists.
#[derive(Debug, Clone, PartialEq, Eq)]
pub struct FileConfig {
    /// Which embedder backend to use.
    pub embedder: EmbedderSource,
}

impl Default for FileConfig {
    fn default() -> (r: FileConfig)
        ensures
            r.embedder is Bundled,
    {
        FileConfig { embedder: EmbedderSource::Bundled }
    }
}

/// What to build for an embedder source.
#[derive(Debug, Clone, PartialEq, Eq)]
pub enum EmbedderPlan {
    /// The hash embedder of width `FALLBACK_DIM`; `warning` says why, when it stands in for a
    /// configured model.
    Hash { warning: Option<String> },
    /// A local model loaded from `path` with width `dim`; `label` names it in messages.
    Local { path: String, dim: usize, label: String },
    /// A remote endpoint.
    Remote { url: String, model: String, api_key_env: Option<String>, dim: Option<usize> },
}

/// The warning given when no bundled model is found.
pub open spec fn no_bundled_message() -> Seq<char> {
    "mdkb-embed: no bundled model found (set MDKB_BUNDLED_MODEL_DIR or place a `model/` dir beside the binary); using offline hash embedder"@
}

/// Decide what to build for `source`, given the bundled model directory if one was found: the
/// hash embedder for `Hash`; the bundled model at `FALLBACK_DIM` (labelled `bundled`), or the hash
/// embedder with a warning when there is none; a local model at its width (else
/// `FALLBACK_DIM`, labelled `local`); a remote endpoint as configured.
pub fn plan_embedder(source: &EmbedderSource, bundled_dir: Option<&str>) -> (r: EmbedderPlan)
    ensures
        source is Hash ==> r == (EmbedderPlan::Hash { warning: None }),
        source is Bundled ==> match bundled_dir {
            Some(d) => r matches EmbedderPlan::Local { path, dim, label } && path@ == d@ && dim
                == FALLBACK_DIM && label@ == "bundled"@,
            None => r matches EmbedderPlan::Hash { warning: Some(w) } && w@ == no_bundled_message(),
        },
        source matches EmbedderSource::Local { path: p, dim: d } ==> (r matches EmbedderPlan::Local {
            path,
            dim,
            label,
        } && path@ == p@ && dim == (match d {
            Some(x) => *x,
            None => FALLBACK_DIM,
        }) && label@ == "local"@),
        source matches EmbedderSource::Remote { url: u, model: m, api_key_env: k, dim: d } ==> (
        r matches EmbedderPlan::Remote { url, model, api_key_env, dim } && url@ == u@ && model@
            == m@ && crate::block::opt_str_view(api_key_env) == crate::block::opt_str_view(*k) && dim
            == *d),
{
    match source {
        EmbedderSource::Hash => EmbedderPlan::Hash { warning: None },
        EmbedderSource::Bundled => match bundled_dir {
            Some(d) => EmbedderPlan::Local { path: d.to_owned(), dim: FALLBACK_DIM, label: "bundled".to_owned() },
            None => EmbedderPlan::Hash {
                warning: Some(
                    "mdkb-embed: no bundled model found (set MDKB_BUNDLED_MODEL_DIR or place a `model/` dir beside the binary); using offline hash embedder".to_owned(),
                ),
            },
        },
        EmbedderSource::Local { path, dim } => EmbedderPlan::Local {
            path: path.clone(),
            dim: match dim {
                Some(x) => *x,
                None => FALLBACK_DIM,
            },
            label: "local".to_owned(),
        },
        EmbedderSource::Remote { url, model, api_key_env, dim } => EmbedderPlan::Remote {
            url: url.clone(),
            model: model.clone(),
            api_key_env: crate::block::clone_opt(api_key_env),
            dim: *dim,
        },
    }
}

} // verus!
