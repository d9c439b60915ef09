use mdkb::embedder::{plan_embedder, EmbedderPlan, EmbedderSource, FileConfig, FALLBACK_DIM};

#[test]
fn default_source_is_bundled() {
    assert_eq!(EmbedderSource::default(), EmbedderSource::Bundled);
}

#[test]
fn file_config_default_is_bundled() {
    assert_eq!(FileConfig::default().embedder, EmbedderSource::Bundled);
}

#[test]
fn hash_source_plans_the_hash_embedder() {
    assert_eq!(
        plan_embedder(&EmbedderSource::Hash, Some("/m")),
        EmbedderPlan::Hash { warning: None }
    );
}

#[test]
fn bundled_uses_the_bundled_dir_or_falls_back_to_hash() {
    assert_eq!(
        plan_embedder(&EmbedderSource::Bundled, Some("/opt/app/model")),
        EmbedderPlan::Local {
            path: "/opt/app/model".into(),
            dim: FALLBACK_DIM,
            label: "bundled".into()
        }
    );
    match plan_embedder(&EmbedderSource::Bundled, None) {
        EmbedderPlan::Hash { warning: Some(w) } => assert!(w.contains("no bundled model found")),
        other => panic!("expected the hash fallback, got {other:?}"),
    }
}

#[test]
fn local_width_defaults_to_fallback() {
    let p = plan_embedder(
        &EmbedderSource::Local {
            path: "/m/bge".into(),
            dim: None,
        },
        None,
    );
    assert_eq!(
        p,
        EmbedderPlan::Local {
            path: "/m/bge".into(),
            dim: 384,
            label: "local".into()
        }
    );
    let p = plan_embedder(
        &EmbedderSource::Local {
            path: "/m/big".into(),
            dim: Some(1024),
        },
        None,
    );
    assert!(matches!(p, EmbedderPlan::Local { dim: 1024, .. }));
}

#[test]
fn remote_is_planned_as_configured() {
    let src = EmbedderSource::Remote {
        url: "http://h/v1/embeddings".into(),
        model: "bge-m3".into(),
        api_key_env: Some("K".into()),
        dim: None,
    };
    assert_eq!(
        plan_embedder(&src, None),
        EmbedderPlan::Remote {
            url: "http://h/v1/embeddings".into(),
            model: "bge-m3".into(),
            api_key_env: Some("K".into()),
            dim: None
        }
    );
}
