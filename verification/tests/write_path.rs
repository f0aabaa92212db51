use image_tags::error::ErrorKind;
use image_tags::error::ServerError;
use image_tags::query::query_image_by_id;
use image_tags::query::query_images;
use image_tags::query::TagFilter;
use image_tags::requests::ImageInput;
use image_tags::store::Store;
use image_tags::store::StoreError;
use image_tags::store::TagRow;
use image_tags::write::complete_image_upload;
use image_tags::write::execute_insert_image;
use image_tags::write::generate_label;
use image_tags::write::upload_url;
use image_tags::write::InsertOutcome;

fn insert_url_image(store: &mut Store, url: &str, tags: &[&str], label: Option<&str>) -> i32 {
    let tags: Vec<String> = tags.iter().map(|t| t.to_string()).collect();
    let outcome = execute_insert_image(
        store,
        ImageInput::ImageUrl(url.to_string()),
        tags,
        label.map(|l| l.to_string()),
    );
    match outcome {
        Ok(InsertOutcome::Committed(id)) => id,
        _ => panic!("expected a committed insertion"),
    }
}

#[test]
fn resolving_a_tag_twice_in_one_txn_returns_one_id() {
    let store = Store::new();
    let mut txn = store.begin();
    let name = "cat".to_string();
    let id1 = txn.resolve_tag(&name).unwrap();
    let id2 = txn.resolve_tag(&name).unwrap();
    assert_eq!(id1, id2);
    let mut store = store;
    txn.commit(&mut store);
    assert_eq!(store.tags.len(), 1);
}

#[test]
fn resolving_a_tag_across_txns_returns_the_same_id() {
    let mut store = Store::new();
    let name = "cat".to_string();
    let mut txn = store.begin();
    let id1 = txn.resolve_tag(&name).unwrap();
    txn.commit(&mut store);
    let mut txn = store.begin();
    let id2 = txn.resolve_tag(&name).unwrap();
    txn.commit(&mut store);
    assert_eq!(id1, id2);
    assert_eq!(store.tags.len(), 1);
}

#[test]
fn insert_links_image_to_all_tags() {
    let mut store = Store::new();
    let id = insert_url_image(&mut store, "http://example.test/a.png", &["cat", "dog"], None);
    let res = query_image_by_id(&store, id).unwrap();
    assert_eq!(res.id, id);
    assert_eq!(res.url, "http://example.test/a.png");
    assert_eq!(res.tags, vec!["cat".to_string(), "dog".to_string()]);
}

#[test]
fn duplicate_tags_in_input_make_one_junction_row() {
    let mut store = Store::new();
    let id = insert_url_image(&mut store, "u", &["cat", "cat"], None);
    assert_eq!(store.tags.len(), 1);
    assert_eq!(store.links.len(), 1);
    let res = query_image_by_id(&store, id).unwrap();
    assert_eq!(res.tags, vec!["cat".to_string()]);
}

#[test]
fn label_synthesis_from_tags() {
    let tags = vec!["cat".to_string(), "dog".to_string()];
    assert_eq!(generate_label(&tags), "An image containing cat, dog.");
    let none: Vec<String> = vec![];
    assert_eq!(generate_label(&none), "An untagged image");
}

#[test]
fn label_synthesis_applies_on_insert_without_label() {
    let mut store = Store::new();
    let id = insert_url_image(&mut store, "u", &["cat", "dog"], None);
    let res = query_image_by_id(&store, id).unwrap();
    assert_eq!(res.label, "An image containing cat, dog.");
    let id2 = insert_url_image(&mut store, "u", &[], None);
    let res2 = query_image_by_id(&store, id2).unwrap();
    assert_eq!(res2.label, "An untagged image");
}

#[test]
fn explicit_label_wins_over_synthesis() {
    let mut store = Store::new();
    let id = insert_url_image(&mut store, "u", &["cat"], Some("My cat"));
    let res = query_image_by_id(&store, id).unwrap();
    assert_eq!(res.label, "My cat");
}

#[test]
fn dropping_a_pending_upload_rolls_everything_back() {
    let mut store = Store::new();
    let outcome = execute_insert_image(
        &mut store,
        ImageInput::ImageBase64("ZGF0YQ==".to_string()),
        vec!["cat".to_string(), "dog".to_string()],
        None,
    )
    .unwrap();
    match outcome {
        InsertOutcome::AwaitingUpload(pending) => drop(pending),
        _ => panic!("raw data must await the upload"),
    }
    assert_eq!(store.images.len(), 0);
    assert_eq!(store.tags.len(), 0);
    assert_eq!(store.links.len(), 0);
    let all = query_images(&store, &TagFilter::NoFilter).unwrap();
    assert_eq!(all.len(), 0);
}

#[test]
fn completed_upload_stores_the_final_url_never_the_placeholder() {
    let mut store = Store::new();
    let outcome = execute_insert_image(
        &mut store,
        ImageInput::ImageBase64("ZGF0YQ==".to_string()),
        vec!["cat".to_string()],
        None,
    )
    .unwrap();
    let pending = match outcome {
        InsertOutcome::AwaitingUpload(pending) => pending,
        _ => panic!("raw data must await the upload"),
    };
    assert_eq!(pending.data, "ZGF0YQ==");
    let assigned = pending.image_id;
    let url = upload_url(assigned);
    let id = complete_image_upload(&mut store, pending, url.clone());
    assert_eq!(id, assigned);
    let res = query_image_by_id(&store, id).unwrap();
    assert_eq!(res.url, url);
    assert_eq!(res.url, "http://localhost:3000/files/1.png");
    assert_ne!(res.url, "temporary");
}

#[test]
fn upload_url_embeds_the_identifier() {
    assert_eq!(upload_url(42), "http://localhost:3000/files/42.png");
    assert_eq!(upload_url(7), "http://localhost:3000/files/7.png");
    assert_eq!(upload_url(1230), "http://localhost:3000/files/1230.png");
}

#[test]
fn exhausted_tag_id_space_is_a_store_failure_and_rolls_back() {
    let mut store = Store::new();
    store.tags.push(TagRow { id: i32::MAX - 1, name: "old".to_string() });
    store.next_tag_id = i32::MAX;
    let r = execute_insert_image(
        &mut store,
        ImageInput::ImageUrl("u".to_string()),
        vec!["new".to_string()],
        None,
    );
    match r {
        Err(e) => {
            assert_eq!(e.kind, ErrorKind::StoreFailure);
            assert_eq!(e.msg, "store failure: identifier space exhausted");
        }
        Ok(_) => panic!("the identifier space is exhausted"),
    }
    assert_eq!(store.images.len(), 0);
    assert_eq!(store.tags.len(), 1);
    assert_eq!(store.links.len(), 0);
}

#[test]
fn store_error_maps_to_store_failure_kind() {
    let e = ServerError::from(StoreError::IdSpaceExhausted);
    assert_eq!(e.kind, ErrorKind::StoreFailure);
    assert_eq!(e.msg, "store failure: identifier space exhausted");
}

#[test]
fn identifiers_are_assigned_monotonically() {
    let mut store = Store::new();
    let a = insert_url_image(&mut store, "u1", &["cat"], None);
    let b = insert_url_image(&mut store, "u2", &["dog"], None);
    assert_eq!(a, 1);
    assert_eq!(b, 2);
}

#[test]
fn collaborator_failures_carry_their_own_kind() {
    let e = ServerError::new(ErrorKind::ExternalFailure, "upload failed".to_string());
    assert_eq!(e.kind, ErrorKind::ExternalFailure);
    assert_eq!(e.msg, "upload failed");
}
