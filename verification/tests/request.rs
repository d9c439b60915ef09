use mdkb::id::BlockId;
use mdkb::query::SearchQuery;
use mdkb::request::Request;

#[test]
fn mutates_classifies_writes_and_reads() {
    let id = BlockId::parse("01J5Z8Q4N2M3K7T9V6W0X1Y700").unwrap();
    let writes = [
        Request::CreateBlock {
            title: None,
            body: "b".into(),
        },
        Request::UpdateBlock {
            id: id.clone(),
            title: None,
            body: "b".into(),
            force: false,
        },
        Request::ReplaceInBlock {
            id: id.clone(),
            old: "a".into(),
            new: "b".into(),
            expect_count: 1,
            force: false,
        },
        Request::AppendToBlock {
            id: id.clone(),
            text: "x".into(),
        },
        Request::DeleteBlock { id: id.clone() },
        Request::SetTags {
            id: id.clone(),
            tags: vec![],
        },
        Request::LinkBlocks {
            source_id: id.clone(),
            target_id: id.clone(),
            embed: true,
        },
        Request::SetLock {
            id: id.clone(),
            locked: true,
        },
    ];
    for w in writes {
        assert!(w.mutates(), "{w:?} should be a write");
    }
    let reads = [
        Request::Ping,
        Request::Search {
            query: SearchQuery::default(),
        },
        Request::GetBlock { id: id.clone() },
        Request::GetBlockView {
            id: id.clone(),
            rendered: false,
            start: None,
            end: None,
        },
        Request::ListBlocks,
        Request::Backlinks { id: id.clone() },
        Request::Heartbeat {
            lease: "x".into(),
            ttl_ms: 1000,
        },
        Request::Rebuild,
    ];
    for r in reads {
        assert!(!r.mutates(), "{r:?} should not be a write");
    }
}

#[test]
fn asset_and_carve_ops_are_writes_and_lifecycle_ops_are_not() {
    let id = BlockId::parse("01J5Z8Q4N2M3K7T9V6W0X1Y700").unwrap();
    assert!(Request::AddAsset { name: "a.png".into(), data_base64: "AA==".into() }.mutates());
    assert!(Request::RemoveAsset { path: "assets/a.png".into() }.mutates());
    assert!(Request::CarveSelection { parent_id: id.clone(), start: 0, end: 1 }.mutates());
    assert!(Request::FlattenBlock { parent_id: id.clone(), child_id: id.clone() }.mutates());
    assert!(!Request::Authenticate { token: "t".into() }.mutates());
    assert!(!Request::AnnounceApp.mutates());
    assert!(!Request::Shutdown.mutates());
    assert!(!Request::OrphanAssets.mutates());
}
