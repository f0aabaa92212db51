use image_tags::error::ErrorKind;
use image_tags::query::get_image_ids_that_have_all_tags;
use image_tags::query::query_image_by_id;
use image_tags::query::query_images;
use image_tags::query::ImageResult;
use image_tags::query::TagFilter;
use image_tags::requests::ImageInput;
use image_tags::store::Store;
use image_tags::write::execute_insert_image;
use image_tags::write::InsertOutcome;

fn insert_url_image(store: &mut Store, url: &str, tags: &[&str], label: Option<&str>) -> i32 {
    let tags: Vec<String> = tags.iter().map(|t| t.to_string()).collect();
    let outcome = execute_insert_image(
        store,
        ImageInput::ImageUrl(url.to_string()),
        tags,
        label.map(|l| l.to_string()),
    );
    match outcome {
        Ok(InsertOutcome::Committed(id)) => id,
        _ => panic!("expected a committed insertion"),
    }
}

fn names(items: &[&str]) -> Vec<String> {
    items.iter().map(|t| t.to_string()).collect()
}

fn ids_of(results: &[ImageResult]) -> Vec<i32> {
    results.iter().map(|r| r.id).collect()
}

/// A catalog with one image tagged {cat, dog, pet} and one tagged {bird}.
fn sample_catalog() -> (Store, i32, i32) {
    let mut store = Store::new();
    let pet = insert_url_image(&mut store, "http://example.test/pet.png", &["cat", "dog", "pet"], None);
    let bird = insert_url_image(&mut store, "http://example.test/bird.png", &["bird"], None);
    (store, pet, bird)
}

#[test]
fn contains_all_returns_supersets_only() {
    let (store, pet, _bird) = sample_catalog();
    let hit = query_images(&store, &TagFilter::ContainsAllTags(names(&["cat", "dog"]))).unwrap();
    assert_eq!(ids_of(&hit), vec![pet]);
    let miss = query_images(&store, &TagFilter::ContainsAllTags(names(&["cat", "dog", "bird"])))
        .unwrap();
    assert_eq!(miss.len(), 0);
}

#[test]
fn contains_all_discounts_repeated_names() {
    let (store, pet, _bird) = sample_catalog();
    let hit = query_images(&store, &TagFilter::ContainsAllTags(names(&["cat", "cat", "dog"])))
        .unwrap();
    assert_eq!(ids_of(&hit), vec![pet]);
}

#[test]
fn contains_any_returns_images_with_at_least_one_tag() {
    let (store, pet, bird) = sample_catalog();
    let miss = query_images(&store, &TagFilter::ContainsSomeTags(names(&["fish"]))).unwrap();
    assert_eq!(miss.len(), 0);
    let hit = query_images(&store, &TagFilter::ContainsSomeTags(names(&["cat"]))).unwrap();
    assert_eq!(ids_of(&hit), vec![pet]);
    let both = query_images(&store, &TagFilter::ContainsSomeTags(names(&["cat", "bird"])))
        .unwrap();
    assert_eq!(ids_of(&both), vec![pet, bird]);
}

#[test]
fn contains_any_does_not_return_unrelated_images() {
    let (store, _pet, bird) = sample_catalog();
    let hit = query_images(&store, &TagFilter::ContainsSomeTags(names(&["bird"]))).unwrap();
    assert_eq!(ids_of(&hit), vec![bird]);
}

#[test]
fn no_filter_returns_every_image_once_with_complete_tags() {
    let (store, pet, bird) = sample_catalog();
    let all = query_images(&store, &TagFilter::NoFilter).unwrap();
    assert_eq!(ids_of(&all), vec![pet, bird]);
    assert_eq!(all[0].tags, vec!["cat".to_string(), "dog".to_string(), "pet".to_string()]);
    assert_eq!(all[1].tags, vec!["bird".to_string()]);
    assert_eq!(all[0].url, "http://example.test/pet.png");
    assert_eq!(all[1].url, "http://example.test/bird.png");
}

#[test]
fn empty_requested_sets_match_every_image() {
    let (store, pet, bird) = sample_catalog();
    let all = query_images(&store, &TagFilter::ContainsAllTags(names(&[]))).unwrap();
    assert_eq!(ids_of(&all), vec![pet, bird]);
    let any = query_images(&store, &TagFilter::ContainsSomeTags(names(&[]))).unwrap();
    assert_eq!(ids_of(&any), vec![pet, bird]);
}

#[test]
fn queries_on_an_empty_catalog_return_nothing() {
    let store = Store::new();
    assert_eq!(query_images(&store, &TagFilter::NoFilter).unwrap().len(), 0);
    assert_eq!(
        query_images(&store, &TagFilter::ContainsSomeTags(names(&["cat"]))).unwrap().len(),
        0
    );
    assert_eq!(
        query_images(&store, &TagFilter::ContainsAllTags(names(&["cat"]))).unwrap().len(),
        0
    );
}

#[test]
fn hydrated_rows_carry_tags_of_their_own_image_only() {
    let mut store = Store::new();
    let a = insert_url_image(&mut store, "ua", &["cat", "shared"], None);
    let b = insert_url_image(&mut store, "ub", &["dog", "shared"], None);
    let ra = query_image_by_id(&store, a).unwrap();
    let rb = query_image_by_id(&store, b).unwrap();
    assert_eq!(ra.tags, vec!["cat".to_string(), "shared".to_string()]);
    assert_eq!(rb.tags, vec!["dog".to_string(), "shared".to_string()]);
    assert_eq!(store.tags.len(), 3);
}

#[test]
fn all_tags_aggregation_lists_qualifying_image_ids() {
    let (store, pet, bird) = sample_catalog();
    assert_eq!(get_image_ids_that_have_all_tags(&store, &names(&["cat", "dog"])), vec![pet]);
    assert_eq!(get_image_ids_that_have_all_tags(&store, &names(&["bird"])), vec![bird]);
    assert_eq!(get_image_ids_that_have_all_tags(&store, &names(&[])), vec![pet, bird]);
    assert_eq!(
        get_image_ids_that_have_all_tags(&store, &names(&["cat", "bird"])).len(),
        0
    );
}

#[test]
fn missing_image_is_not_found_not_a_store_failure() {
    let (store, _pet, _bird) = sample_catalog();
    match query_image_by_id(&store, 999) {
        Err(e) => {
            assert_eq!(e.kind, ErrorKind::NotFound);
            assert_ne!(e.kind, ErrorKind::StoreFailure);
            assert_eq!(e.msg, "no image found with the requested identifier");
        }
        Ok(_) => panic!("identifier 999 must not exist"),
    }
}

#[test]
fn found_image_round_trips_its_fields() {
    let mut store = Store::new();
    let id = insert_url_image(&mut store, "http://example.test/x.png", &["cat"], Some("A cat"));
    let res = query_image_by_id(&store, id).unwrap();
    assert_eq!(res.id, id);
    assert_eq!(res.url, "http://example.test/x.png");
    assert_eq!(res.label, "A cat");
    assert_eq!(res.tags, vec!["cat".to_string()]);
}
