use agni::asset_gateway::{
    asset_fetched, asset_request, asset_step, mesh_outcome, AssetOutcome, AssetReply, MeshFound,
    ASKING_PEERS, BAD_KEY, FROM_PEER, NO_KEY, NO_SOURCE, OFF_SOURCE, STORE_UNAVAILABLE, UNPUBLISHED,
};

#[test]
fn a_request_without_a_known_key_is_refused() {
    assert_eq!(
        asset_request(None),
        Err(AssetReply::Refused(400, NO_KEY.to_string()))
    );
    assert_eq!(
        asset_request(Some("secrets/x")),
        Err(AssetReply::Refused(400, BAD_KEY.to_string()))
    );
    assert_eq!(
        asset_request(Some("playmats/")),
        Err(AssetReply::Refused(400, BAD_KEY.to_string()))
    );
    let request = asset_request(Some("  Playmats/Approved ")).unwrap();
    assert_eq!(request.key, "playmats/approved");
    assert_eq!(request.journal, "playmats");
    assert_eq!(request.name, "approved");
}

#[test]
fn the_mesh_decides_between_held_pending_and_fetch() {
    assert_eq!(
        mesh_outcome(MeshFound::Held("h1".into()), 3),
        AssetOutcome::Held("h1".into())
    );
    assert_eq!(
        mesh_outcome(MeshFound::Provider("h2".into()), 0),
        AssetOutcome::Pending(FROM_PEER.to_string())
    );
    assert_eq!(mesh_outcome(MeshFound::Unknown, 0), AssetOutcome::Fetch);
    assert_eq!(
        mesh_outcome(MeshFound::Unknown, 2),
        AssetOutcome::Pending(ASKING_PEERS.to_string())
    );
}

#[test]
fn an_unpublished_asset_is_refused_whatever_its_source() {
    assert_eq!(
        asset_step(AssetOutcome::Unpublished, Some("https://cards.scryfall.io/random.jpg")),
        AssetReply::Refused(404, UNPUBLISHED.to_string())
    );
    assert_eq!(
        asset_step(AssetOutcome::Held("abc".into()), None),
        AssetReply::Held("abc".into())
    );
}

#[test]
fn a_fetch_needs_an_allowed_source() {
    assert_eq!(
        asset_step(AssetOutcome::Fetch, None),
        AssetReply::Refused(404, NO_SOURCE.to_string())
    );
    assert_eq!(
        asset_step(AssetOutcome::Fetch, Some("http://cards.scryfall.io/a.jpg")),
        AssetReply::Refused(403, OFF_SOURCE.to_string())
    );
    assert_eq!(
        asset_step(AssetOutcome::Fetch, Some(" https://cards.scryfall.io/a.jpg ")),
        AssetReply::Fetch("https://cards.scryfall.io/a.jpg".into())
    );
    assert_eq!(
        asset_step(AssetOutcome::StoreUnavailable, None),
        AssetReply::Refused(500, STORE_UNAVAILABLE.to_string())
    );
    assert_eq!(
        asset_step(AssetOutcome::Pending("why".into()), None),
        AssetReply::Pending("why".into())
    );
}

#[test]
fn a_failed_fetch_names_its_source() {
    assert_eq!(
        asset_fetched("https://cards.scryfall.io/a.jpg", Err("timed out".into())),
        AssetReply::Refused(502, "https://cards.scryfall.io/a.jpg: timed out".into())
    );
    assert_eq!(
        asset_fetched("https://cards.scryfall.io/a.jpg", Ok("h".into())),
        AssetReply::Held("h".into())
    );
}
